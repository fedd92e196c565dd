//! What the workers of the pool decide.
//!
//! A worker asks for its slots, takes tasks turn by turn, runs the handler on
//! each and settles it. Here stand the decisions; the tasks, the handler and
//! the clock are the caller's.

use vstd::prelude::*;

use crate::stats;
use crate::stats::StatsCollector;
use crate::tenant::enqueue;

verus! {

/// How the pool is laid out.
#[derive(Debug)]
pub struct FairWorkerPool {
    /// The queues that every worker serves, in order.
    pub queues: Vec<String>,
    /// How many workers there are.
    pub concurrency: usize,
    /// How long a worker pauses between two rounds.
    pub tick_ms: u64,
    /// How many slots all workers share in a round.
    pub total_slots: usize,
}

/// A worker's turn at a queue.
#[derive(Debug)]
pub struct Turn {
    pub tenant_id: String,
    pub queue: String,
    /// How many tasks it takes at most.
    pub slots: usize,
}

/// A turn as a mathematical value.
#[verifier::ext_equal]
pub struct TurnView {
    pub tenant_id: Seq<char>,
    pub queue: Seq<char>,
    pub slots: nat,
}

impl View for Turn {
    type V = TurnView;

    open spec fn view(&self) -> TurnView {
        TurnView { tenant_id: self.tenant_id@, queue: self.queue@, slots: self.slots as nat }
    }
}

/// Turns as mathematical values.
pub open spec fn turns_view(v: Seq<Turn>) -> Seq<TurnView> {
    v.map_values(|t: Turn| t@)
}

/// A tenant's turns, one at each queue; none without slots.
pub open spec fn turns_of(g: stats::Grant, queues: Seq<Seq<char>>) -> Seq<TurnView> {
    if g.1 == 0 {
        Seq::empty()
    } else {
        queues.map_values(|q: Seq<char>| TurnView { tenant_id: g.0, queue: q, slots: g.1 })
    }
}

/// The turns of a round: tenant after tenant, queue after queue.
pub open spec fn round(gs: Seq<stats::Grant>, queues: Seq<Seq<char>>) -> Seq<TurnView>
    decreases gs.len(),
{
    if gs.len() == 0 {
        Seq::empty()
    } else {
        round(gs.drop_last(), queues) + turns_of(gs.last(), queues)
    }
}

/// What happened to a task that a worker holds.
#[derive(Debug, Clone, Copy, PartialEq, Eq, Structural)]
pub enum TaskEvent {
    /// It was taken from its queue.
    Taken,
    /// The handler succeeded.
    Succeeded,
    /// The handler failed.
    Failed,
    /// The task was acknowledged; whether it was still leased, and how long it
    /// took.
    Acked { present: bool, latency_ms: u64 },
    /// Acknowledging it or giving it back failed.
    NotSettled,
    /// It was given back.
    Nacked,
}

/// What a worker does next with a task.
#[derive(Debug, Clone, Copy, PartialEq, Eq, Structural)]
pub enum TaskStep {
    /// The handler runs on it.
    Handle,
    /// It is acknowledged.
    Ack,
    /// It is given back.
    Nack,
    /// Nothing is left to do.
    Done,
}

/// What a worker does next.
pub open spec fn next_step(event: TaskEvent) -> TaskStep {
    match event {
        TaskEvent::Taken => TaskStep::Handle,
        TaskEvent::Succeeded => TaskStep::Ack,
        TaskEvent::Failed => TaskStep::Nack,
        _ => TaskStep::Done,
    }
}

/// What an event adds to a tenant's tally.
pub open spec fn noted(t: stats::TallyView, event: TaskEvent) -> stats::TallyView {
    match event {
        TaskEvent::Acked { present, latency_ms } => if present {
            stats::with_acked(t, 1, latency_ms)
        } else {
            t
        },
        TaskEvent::Failed => stats::with_nacked(t),
        _ => t,
    }
}

/// The part of the slots that each of so many workers has: at least one.
pub open spec fn worker_part(total: usize, workers: usize) -> usize {
    if total / workers > 1 {
        total / workers
    } else {
        1
    }
}

impl FairWorkerPool {
    /// How many slots a worker has in a round: an equal part, at least one.
    pub fn worker_slots(&self) -> (r: usize)
        requires
            self.concurrency > 0,
        ensures
            r == worker_part(self.total_slots, self.concurrency),
    {
        let part: usize = self.total_slots / self.concurrency;
        if part > 1 {
            part
        } else {
            1
        }
    }

    /// The turns of a worker's round.
    pub fn turns(&self, schedule: &Vec<(String, usize)>) -> (r: Vec<Turn>)
        ensures
            turns_view(r@) == round(
                stats::grants_view(schedule@),
                enqueue::texts(self.queues@),
            ),
    {
        let ghost gs = stats::grants_view(schedule@);
        let ghost qs = enqueue::texts(self.queues@);
        let mut out: Vec<Turn> = Vec::new();
        let mut i: usize = 0;
        assert(gs.take(0) =~= Seq::empty());
        assert(turns_view(out@) =~= Seq::empty());
        while i < schedule.len()
            invariant
                0 <= i <= schedule@.len(),
                gs == stats::grants_view(schedule@),
                qs == enqueue::texts(self.queues@),
                turns_view(out@) == round(gs.take(i as int), qs),
            decreases schedule@.len() - i,
        {
            let ghost before = turns_view(out@);
            assert(gs.take(i + 1).drop_last() =~= gs.take(i as int));
            assert(gs.take(i + 1).last() == gs[i as int]);
            let (tenant_id, slots) = &schedule[i];
            let ghost g: stats::Grant = (tenant_id@, *slots as nat);
            assert(gs[i as int] == g);
            if *slots > 0 {
                let mut k: usize = 0;
                assert(turns_of(g, qs).take(0) =~= Seq::empty());
                assert(before + turns_of(g, qs).take(0) =~= before);
                while k < self.queues.len()
                    invariant
                        0 <= k <= self.queues@.len(),
                        qs == enqueue::texts(self.queues@),
                        g == (tenant_id@, *slots as nat),
                        *slots > 0,
                        turns_view(out@) == before + turns_of(g, qs).take(k as int),
                    decreases self.queues@.len() - k,
                {
                    let t = Turn {
                        tenant_id: tenant_id.clone(),
                        queue: self.queues[k].clone(),
                        slots: *slots,
                    };
                    let ghost so_far = out@;
                    assert(t@ =~= turns_of(g, qs)[k as int]);
                    out.push(t);
                    assert(turns_view(out@) =~= turns_view(so_far).push(t@));
                    assert(turns_view(out@) =~= before + turns_of(g, qs).take(k + 1));
                    k = k + 1;
                }
                assert(turns_of(g, qs).take(k as int) =~= turns_of(g, qs));
            } else {
                assert(before + turns_of(g, qs) =~= before);
            }
            i = i + 1;
        }
        assert(gs.take(i as int) =~= gs);
        out
    }

    /// What a worker does next with a task, and what is counted: an
    /// acknowledgement only where the task was still leased, a failure of the
    /// handler before the task is given back.
    pub fn process_task(
        &self,
        collector: &mut StatsCollector,
        tenant_id: &str,
        event: TaskEvent,
    ) -> (r: TaskStep)
        requires
            old(collector).wf(),
        ensures
            final(collector).wf(),
            final(collector).min_slots() == old(collector).min_slots(),
            final(collector).order() == old(collector).order(),
            r == next_step(event),
            final(collector)@ == (if old(collector)@.contains_key(tenant_id@) {
                old(collector)@.insert(tenant_id@, noted(old(collector)@[tenant_id@], event))
            } else {
                old(collector)@
            }),
    {
        assert(collector@.contains_key(tenant_id@) ==> collector@.insert(
            tenant_id@,
            collector@[tenant_id@],
        ) =~= collector@);
        match event {
            TaskEvent::Taken => TaskStep::Handle,
            TaskEvent::Succeeded => TaskStep::Ack,
            TaskEvent::Failed => {
                collector.record_nack(tenant_id);
                TaskStep::Nack
            },
            TaskEvent::Acked { present, latency_ms } => {
                if present {
                    collector.record_ack(tenant_id, latency_ms);
                }
                TaskStep::Done
            },
            TaskEvent::NotSettled | TaskEvent::Nacked => TaskStep::Done,
        }
    }
}

/// Every task ends: the handler runs on it once, then comes one attempt to
/// settle it, and after that nothing.
pub proof fn law_task_is_settled_once(handled: TaskEvent, settled: TaskEvent)
    requires
        handled is Succeeded || handled is Failed,
        settled is Acked || settled is Nacked || settled is NotSettled,
    ensures
        next_step(TaskEvent::Taken) is Handle,
        next_step(handled) == (if handled is Succeeded {
            TaskStep::Ack
        } else {
            TaskStep::Nack
        }),
        next_step(settled) is Done,
{
}

/// A turn is given to every queue of every tenant that has slots, and to no
/// other.
pub proof fn law_every_grant_is_served(gs: Seq<stats::Grant>, queues: Seq<Seq<char>>, t: TurnView)
    ensures
        round(gs, queues).contains(t) <==> t.slots > 0 && queues.contains(t.queue) && gs.contains(
            (t.tenant_id, t.slots),
        ),
    decreases gs.len(),
{
    let r = round(gs, queues);
    if gs.len() > 0 {
        let rest = gs.drop_last();
        let last = turns_of(gs.last(), queues);
        let before = round(rest, queues);
        law_every_grant_is_served(rest, queues, t);
        if r.contains(t) {
            let j = choose|j: int| 0 <= j < r.len() && r[j] == t;
            if j < before.len() {
                assert(before[j] == t);
                let i = choose|i: int| 0 <= i < rest.len() && rest[i] == (t.tenant_id, t.slots);
                assert(gs[i] == (t.tenant_id, t.slots));
            } else {
                assert(last[j - before.len()] == t);
                assert(queues[j - before.len()] == t.queue);
                assert(gs[gs.len() - 1] == (t.tenant_id, t.slots));
            }
        }
        if t.slots > 0 && queues.contains(t.queue) && gs.contains((t.tenant_id, t.slots)) {
            let i = choose|i: int| 0 <= i < gs.len() && gs[i] == (t.tenant_id, t.slots);
            if i < rest.len() {
                assert(rest[i] == (t.tenant_id, t.slots));
                let j = choose|j: int| 0 <= j < before.len() && before[j] == t;
                assert(r[j] == t);
            } else {
                let k = choose|k: int| 0 <= k < queues.len() && queues[k] == t.queue;
                assert(last[k] =~= t);
                assert(r[before.len() + k] == t);
            }
        }
    }
}

/// What is counted of a task: one acknowledgement with its time where the task was
/// still leased, one that was given back where the handler failed, and nothing
/// else.
pub proof fn law_settled_counted_once(t: stats::TallyView, latency_ms: u64)
    requires
        t.counters.ack_count < u64::MAX,
        t.counters.total_acked < u64::MAX,
        t.counters.nack_count < u64::MAX,
        t.counters.total_nacked < u64::MAX,
        t.counters.latency_sum_ms + latency_ms <= u64::MAX,
    ensures
        ({
            let a = noted(t, (TaskEvent::Acked { present: true, latency_ms }));
            &&& a.counters.ack_count == t.counters.ack_count + 1
            &&& a.counters.total_acked == t.counters.total_acked + 1
            &&& a.counters.latency_sum_ms == t.counters.latency_sum_ms + latency_ms
            &&& a.counters.nack_count == t.counters.nack_count && a.counters.total_nacked
                == t.counters.total_nacked && a.counters.enqueue_count == t.counters.enqueue_count
                && a.counters.total_enqueued == t.counters.total_enqueued
            &&& a.stats == t.stats
        }),
        noted(t, (TaskEvent::Acked { present: false, latency_ms })) == t,
        ({
            let f = noted(t, TaskEvent::Failed);
            &&& f.counters.nack_count == t.counters.nack_count + 1
            &&& f.counters.total_nacked == t.counters.total_nacked + 1
            &&& f.counters.ack_count == t.counters.ack_count && f.counters.total_acked
                == t.counters.total_acked && f.counters.latency_sum_ms == t.counters.latency_sum_ms
                && f.counters.enqueue_count == t.counters.enqueue_count
                && f.counters.total_enqueued == t.counters.total_enqueued
            &&& f.stats == t.stats
        }),
        noted(t, TaskEvent::Taken) == t,
        noted(t, TaskEvent::Succeeded) == t,
        noted(t, TaskEvent::Nacked) == t,
        noted(t, TaskEvent::NotSettled) == t,
{
}

/// Turns come tenant after tenant and, for each, queue after queue: those of two lists
/// after each other are those of the lists together, and a tenant with slots has one
/// at each queue, in their order.
pub proof fn law_turns_in_order(
    x: Seq<stats::Grant>,
    y: Seq<stats::Grant>,
    g: stats::Grant,
    queues: Seq<Seq<char>>,
)
    ensures
        round(x + y, queues) == round(x, queues) + round(y, queues),
        g.1 == 0 ==> round(seq![g], queues).len() == 0,
        g.1 > 0 ==> round(seq![g], queues).len() == queues.len() && forall|i: int|
            0 <= i < queues.len() ==> {
                let t = #[trigger] round(seq![g], queues)[i];
                t.tenant_id == g.0 && t.queue == queues[i] && t.slots == g.1
            },
    decreases y.len(),
{
    assert(seq![g].drop_last() =~= Seq::<stats::Grant>::empty());
    reveal_with_fuel(round, 2);
    assert(round(seq![g], queues) =~= turns_of(g, queues));
    if y.len() == 0 {
        assert(x + y =~= x);
        assert(round(x, queues) + round(y, queues) =~= round(x, queues));
    } else {
        law_turns_in_order(x, y.drop_last(), g, queues);
        assert((x + y).drop_last() =~= x + y.drop_last());
        assert((x + y).last() == y.last());
        assert(round(x + y, queues) =~= round(x, queues) + round(y, queues));
    }
}

/// Workers have equal parts, as large as there are slots for; where there are fewer
/// slots than workers, each has one.
pub proof fn law_workers_share_slots(total: usize, workers: usize)
    requires
        workers > 0,
    ensures
        worker_part(total, workers) >= 1,
        total >= workers ==> workers * worker_part(total, workers) <= total < workers * (worker_part(
            total,
            workers,
        ) + 1),
        total < workers ==> worker_part(total, workers) == 1,
{
    let q = (total / workers) as int;
    vstd::arithmetic::div_mod::lemma_fundamental_div_mod(total as int, workers as int);
    assert(workers * (q + 1) == workers * q + workers) by (nonlinear_arith);
    if total >= workers {
        assert(q >= 1) by (nonlinear_arith)
            requires
                workers > 0,
                total >= workers,
                total < workers * q + workers,
        ;
    } else {
        assert(q == 0) by (nonlinear_arith)
            requires
                workers > 0,
                0 <= total < workers,
                q >= 0,
                workers * q <= total,
        ;
    }
}

} // verus!
