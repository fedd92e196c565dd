//! What becomes of a task from its arrival to its end.

use vstd::prelude::*;

use crate::error::{Fault, QueueError};
use crate::keys;
use crate::policy::{BacklogPolicy, PolicyView};
use crate::store;
use crate::store::{OpView, RecordView, ScanView, Store};
use crate::task;
use crate::task::TaskView;
use crate::tenant;
use crate::tenant::admission;
use crate::tenant::admission::{AdmissionView, EnqueueStep, EventView};
use crate::tenant::dequeue;
use crate::tenant::dequeue::{CandidateView, DequeuedView, Lease};
use crate::tenant::enqueue;
use crate::tenant::enqueue::Enqueued;
use crate::tenant::isolation;
use crate::tenant::outcome;
use crate::tenant::quota;
use crate::tenant::quota::{QuotaEvent, QuotaStep};
use crate::tenant::{Families, LeasedView, RegistryView};

verus! {

/// The record of the `i`-th new task.
pub open spec fn fresh_record(
    queue: Seq<char>,
    ids: Seq<Seq<char>>,
    payloads: Seq<Seq<u8>>,
    first: u64,
    now: u64,
    i: int,
) -> RecordView {
    RecordView {
        key: task::key_code(queue, enqueue::nth_seq(first, i)),
        value: task::task_code(enqueue::fresh_task(ids[i], queue, payloads[i], now)),
    }
}

/// The records of new tasks, in their order.
pub open spec fn fresh_records(
    queue: Seq<char>,
    ids: Seq<Seq<char>>,
    payloads: Seq<Seq<u8>>,
    first: u64,
    now: u64,
) -> Seq<RecordView> {
    Seq::new(payloads.len(), |i: int| fresh_record(queue, ids, payloads, first, now, i))
}

/// All records come before the key of a number in the queue.
pub open spec fn all_before(rs: Seq<RecordView>, queue: Seq<char>, seq: u64) -> bool {
    forall|i: int|
        0 <= i < rs.len() ==> keys::key_lt((#[trigger] rs[i]).key, task::key_code(queue, seq))
}

/// New tasks get ascending keys behind the records that are there.
proof fn lemma_fresh_behind(
    rs: Seq<RecordView>,
    queue: Seq<char>,
    ids: Seq<Seq<char>>,
    payloads: Seq<Seq<u8>>,
    first: u64,
    now: u64,
)
    requires
        store::ascending(rs),
        all_before(rs, queue, first),
        first + payloads.len() <= u64::MAX + 1,
    ensures
        store::ascending(rs + fresh_records(queue, ids, payloads, first, now)),
{
    let new = fresh_records(queue, ids, payloads, first, now);
    let all = rs + new;
    assert forall|i: int, j: int| 0 <= i < j < all.len() implies keys::key_lt(
        #[trigger] all[i].key,
        #[trigger] all[j].key,
    ) by {
        if j < rs.len() {
            assert(all[i] == rs[i] && all[j] == rs[j]);
        } else {
            let b = j - rs.len();
            let kb = task::key_code(queue, (first + b) as u64);
            assert(all[j].key == kb);
            if i < rs.len() {
                assert(all[i] == rs[i]);
                let k0 = task::key_code(queue, first);
                assert(keys::key_lt(rs[i].key, k0));
                if b > 0 {
                    task::law_key_order(queue, first, (first + b) as u64);
                    keys::lemma_key_transitive(rs[i].key, k0, kb);
                }
            } else {
                let a = i - rs.len();
                assert(all[i].key == task::key_code(queue, (first + a) as u64));
                task::law_key_order(queue, (first + a) as u64, (first + b) as u64);
            }
        }
    }
}

/// New tasks go to the end of their queue: a scan of the queue afterwards gives
/// what it gave before and then the new tasks, in the order of their payloads.
pub proof fn law_enqueue_appends(
    s: Store,
    tenant: Seq<char>,
    queue: Seq<char>,
    rs: Seq<RecordView>,
    ids: Seq<Seq<char>>,
    payloads: Seq<Seq<u8>>,
    first: u64,
    now: u64,
)
    requires
        store::is_scan(s[tenant::pending_name(tenant)], task::prefix_code(queue), rs),
        all_before(rs, queue, first),
        first + payloads.len() <= u64::MAX + 1,
    ensures
        store::is_scan(
            store::apply(
                s,
                enqueue::enqueue_ops(tenant, queue, ids, payloads, first, now),
            )[tenant::pending_name(tenant)],
            task::prefix_code(queue),
            rs + fresh_records(queue, ids, payloads, first, now),
        ),
{
    let cf = tenant::pending_name(tenant);
    let prefix = task::prefix_code(queue);
    let ops = enqueue::enqueue_ops(tenant, queue, ids, payloads, first, now);
    let new = fresh_records(queue, ids, payloads, first, now);
    let all = rs + new;
    let t = s[cf];
    let after = store::apply(s, ops);
    let u = after[cf];
    lemma_fresh_behind(rs, queue, ids, payloads, first, now);
    assert forall|i: int| 0 <= i < new.len() implies store::look(after, cf, (#[trigger] new[i]).key)
        == Some(new[i].value) by {
        assert(ops[i] == (OpView::Put { cf, key: new[i].key, value: new[i].value }));
        assert forall|j: int| i < j < ops.len() implies !store::touches(
            #[trigger] ops[j],
            cf,
            new[i].key,
        ) by {
            assert(all[rs.len() + i] == new[i] && all[rs.len() + j] == new[j]);
            store::lemma_ascending_distinct(all, rs.len() + i, rs.len() + j);
            assert(store::op_key(ops[j]) == new[j].key);
        }
        store::lemma_last_touch(s, ops, cf, new[i].key, i);
    }
    assert forall|k: Seq<u8>| !store::has_key(new, k) implies store::look(after, cf, k)
        == store::look(s, cf, k) by {
        assert forall|j: int| 0 <= j < ops.len() implies !store::touches(
            #[trigger] ops[j],
            cf,
            k,
        ) by {
            assert(store::op_key(ops[j]) == new[j].key);
        }
        store::lemma_untouched(s, ops, cf, k);
    }
    assert forall|i: int| 0 <= i < rs.len() implies !store::has_key(
        new,
        (#[trigger] rs[i]).key,
    ) by {
        assert forall|j: int| 0 <= j < new.len() implies (#[trigger] new[j]).key != rs[i].key by {
            assert(all[i] == rs[i] && all[rs.len() + j] == new[j]);
            store::lemma_ascending_distinct(all, i, rs.len() + j);
        }
    }
    assert(store::entries_of(u, all)) by {
        assert forall|i: int| 0 <= i < all.len() implies u.contains_key((#[trigger] all[i]).key)
            && u[all[i].key] == all[i].value by {
            if i < rs.len() {
                assert(all[i] == rs[i]);
                assert(store::look(after, cf, rs[i].key) == store::look(s, cf, rs[i].key));
            } else {
                assert(all[i] == new[i - rs.len()]);
                assert(store::look(after, cf, new[i - rs.len()].key) is Some);
            }
        }
    }
    assert forall|i: int| 0 <= i < all.len() implies prefix.is_prefix_of(
        (#[trigger] all[i]).key,
    ) by {
        if i < rs.len() {
            assert(all[i] == rs[i]);
        } else {
            task::law_key_prefix(queue, enqueue::nth_seq(first, i - rs.len()));
        }
    }
    assert forall|k: Seq<u8>| #[trigger]
        u.contains_key(k) && prefix.is_prefix_of(k) implies store::has_key(all, k) by {
        if store::has_key(new, k) {
            let j = choose|j: int| 0 <= j < new.len() && (#[trigger] new[j]).key == k;
            assert(all[rs.len() + j].key == k);
        } else {
            assert(store::look(after, cf, k) == store::look(s, cf, k));
            assert(t.contains_key(k));
            let j = choose|j: int| 0 <= j < rs.len() && (#[trigger] rs[j]).key == k;
            assert(all[j].key == k);
        }
    }
}

/// Records are handed out independently of each other, in their order.
pub proof fn lemma_taken_concat(l: Lease, a: Seq<RecordView>, b: Seq<RecordView>)
    ensures
        dequeue::taken(l, a + b) == dequeue::taken(l, a) + dequeue::taken(l, b),
    decreases b.len(),
{
    if b.len() == 0 {
        assert(a + b =~= a);
        assert(dequeue::taken(l, a) + dequeue::taken(l, b) =~= dequeue::taken(l, a));
    } else {
        assert((a + b).drop_last() =~= a + b.drop_last());
        assert((a + b).last() == b.last());
        lemma_taken_concat(l, a, b.drop_last());
        assert(dequeue::taken(l, a + b) =~= dequeue::taken(l, a) + dequeue::taken(l, b));
    }
}

/// New tasks as they are handed out for the first time.
pub open spec fn first_leases(
    l: Lease,
    ids: Seq<Seq<char>>,
    payloads: Seq<Seq<u8>>,
    first: u64,
    enqueued_at: u64,
) -> Seq<LeasedView> {
    Seq::new(
        payloads.len(),
        |i: int|
            (
                task::key_code(l.queue, enqueue::nth_seq(first, i)),
                TaskView {
                    id: ids[i],
                    queue: l.queue,
                    payload: payloads[i],
                    enqueued_at,
                    attempts: 1,
                    deadline: l.deadline,
                },
            ),
    )
}

/// New tasks are handed out as they were enqueued, in the order of their
/// payloads.
proof fn lemma_fresh_taken(
    l: Lease,
    ids: Seq<Seq<char>>,
    payloads: Seq<Seq<u8>>,
    first: u64,
    at: u64,
    n: int,
)
    requires
        0 <= n <= payloads.len(),
        forall|i: int|
            0 <= i < payloads.len() ==> (#[trigger] enqueue::fresh_task(
                ids[i],
                l.queue,
                payloads[i],
                at,
            )).fits(),
    ensures
        dequeue::taken(l, fresh_records(l.queue, ids, payloads, first, at).take(n))
            == first_leases(l, ids, payloads, first, at).take(n),
    decreases n,
{
    let new = fresh_records(l.queue, ids, payloads, first, at);
    let out = first_leases(l, ids, payloads, first, at);
    if n == 0 {
        assert(new.take(0) =~= Seq::<RecordView>::empty());
        assert(out.take(0) =~= Seq::<LeasedView>::empty());
    } else {
        lemma_fresh_taken(l, ids, payloads, first, at, n - 1);
        assert(new.take(n).drop_last() =~= new.take(n - 1));
        let t = enqueue::fresh_task(ids[n - 1], l.queue, payloads[n - 1], at);
        assert(t.fits());
        task::law_task_stored(t);
        assert(new.take(n).last() == new[n - 1]);
        assert(dequeue::leased_task(t, l.deadline) =~= out[n - 1].1);
        assert(out.take(n) =~= out.take(n - 1).push(out[n - 1]));
    }
}

/// What is enqueued is dequeued: a dequeue with a limit that covers the queue
/// gives the older tasks and then the new ones, each with its id and payload, in
/// the order in which they were enqueued.
pub proof fn law_enqueue_then_dequeue(
    l: Lease,
    fam: Families,
    limit: nat,
    rs: Seq<RecordView>,
    ids: Seq<Seq<char>>,
    payloads: Seq<Seq<u8>>,
    first: u64,
    at: u64,
)
    requires
        fam.pending && fam.inflight && fam.dlq,
        limit > 0,
        limit >= rs.len() + payloads.len(),
        forall|i: int|
            0 <= i < payloads.len() ==> (#[trigger] enqueue::fresh_task(
                ids[i],
                l.queue,
                payloads[i],
                at,
            )).fits(),
    ensures
        ({
            let scan = ScanView {
                records: rs + fresh_records(l.queue, ids, payloads, first, at),
                failure: None,
            };
            let d = dequeue::dequeued(l, fam, limit, scan);
            &&& d is Ok
            &&& d->Ok_0.tasks == dequeue::taken(l, rs) + first_leases(
                l,
                ids,
                payloads,
                first,
                at,
            )
        }),
{
    let new = fresh_records(l.queue, ids, payloads, first, at);
    let all = rs + new;
    assert(all.take(dequeue::least(limit, all.len()) as int) =~= all);
    lemma_taken_concat(l, rs, new);
    lemma_fresh_taken(l, ids, payloads, first, at, payloads.len() as int);
    assert(new.take(payloads.len() as int) =~= new);
    let out = first_leases(l, ids, payloads, first, at);
    assert(out.take(payloads.len() as int) =~= out);
}

/// A quota is kept: where tasks are admitted and added, the queue's waiting and
/// leased tasks together stay within it.
pub proof fn law_backlog_within_quota(
    s: Store,
    tenant: Seq<char>,
    queue: Seq<char>,
    policy: PolicyView,
    waiting: Seq<RecordView>,
    leased: Seq<RecordView>,
    deadline: Option<u64>,
    ids: Seq<Seq<char>>,
    payloads: Seq<Seq<u8>>,
    first: u64,
    now: u64,
    after: Seq<RecordView>,
)
    requires
        policy.backlog_quota is Some,
        waiting.len() + leased.len() + payloads.len() <= usize::MAX,
        store::is_scan(s[tenant::pending_name(tenant)], task::prefix_code(queue), waiting),
        store::is_scan(s[tenant::inflight_name(tenant)], task::prefix_code(queue), leased),
        quota::quota_step(
            tenant,
            queue,
            policy,
            payloads.len() as usize,
            (QuotaEvent::Measured {
                pending: waiting.len() as usize,
                inflight: leased.len() as usize,
                deadline,
            }),
            now,
        ) == Ok::<QuotaStep, Fault>(QuotaStep::Admit),
        all_before(waiting, queue, first),
        first + payloads.len() <= u64::MAX + 1,
        after == waiting + fresh_records(queue, ids, payloads, first, now),
    ensures
        ({
            let t = store::apply(
                s,
                enqueue::enqueue_ops(tenant, queue, ids, payloads, first, now),
            );
            &&& store::is_scan(t[tenant::pending_name(tenant)], task::prefix_code(queue), after)
            &&& t[tenant::inflight_name(tenant)] == s[tenant::inflight_name(tenant)]
            &&& after.len() + leased.len() <= policy.backlog_quota->0
        }),
{
    law_enqueue_appends(s, tenant, queue, waiting, ids, payloads, first, now);
    isolation::law_families_distinct(tenant, tenant);
    let ops = enqueue::enqueue_ops(tenant, queue, ids, payloads, first, now);
    store::lemma_apply_frame(s, ops, tenant::inflight_name(tenant));
}

/// What was measured of a queue without fail.
pub open spec fn measured(
    waiting: Seq<RecordView>,
    leased: Seq<RecordView>,
    dead: Seq<RecordView>,
    deadline: Option<u64>,
) -> EventView {
    EventView::Measured {
        pending: ScanView { records: waiting, failure: None },
        inflight: ScanView { records: leased, failure: None },
        dlq: ScanView { records: dead, failure: None },
        deadline,
    }
}

/// Tasks that do not fit under a quota that rejects are refused with the
/// numbers, nothing is written, and nothing changes.
pub proof fn law_full_queue_refuses(
    before: RegistryView,
    after: RegistryView,
    tenant: Seq<char>,
    queue: Seq<char>,
    payloads: Seq<Seq<u8>>,
    policy: PolicyView,
    fam: Families,
    waiting: Seq<RecordView>,
    leased: Seq<RecordView>,
    dead: Seq<RecordView>,
    now: u64,
    r: Result<EnqueueStep, QueueError>,
)
    requires
        fam.pending && fam.inflight && fam.dlq,
        policy.backlog_quota is Some,
        policy.backlog_policy == BacklogPolicy::Reject,
        waiting.len() + leased.len() + payloads.len() <= usize::MAX,
        waiting.len() + leased.len() + payloads.len() > policy.backlog_quota->0,
        admission::enqueue_result(
            before,
            after,
            tenant,
            queue,
            payloads,
            policy,
            fam,
            measured(waiting, leased, dead, None),
            now,
            r,
        ),
    ensures
        r is Err,
        r->Err_0@ == (Fault::BacklogQuotaExceeded {
            tenant,
            queue,
            current: (waiting.len() + leased.len()) as usize,
            quota: policy.backlog_quota->0,
            incoming: payloads.len() as usize,
        }),
        after == before,
{
}

/// Where the oldest tasks make room, an enqueue succeeds: the oldest waiting
/// tasks go, as many as are too many, the rest stays in its order, and the new
/// tasks follow it. The queue is exactly full then.
pub proof fn law_eviction_keeps_the_rest(
    s: Store,
    tenant: Seq<char>,
    queue: Seq<char>,
    policy: PolicyView,
    fam: Families,
    waiting: Seq<RecordView>,
    leased: Seq<RecordView>,
    dead: Seq<RecordView>,
    ids: Seq<Seq<char>>,
    payloads: Seq<Seq<u8>>,
    first: u64,
    now: u64,
)
    requires
        fam.pending && fam.inflight && fam.dlq,
        policy.backlog_quota is Some,
        policy.backlog_policy == BacklogPolicy::EvictOldest,
        waiting.len() + leased.len() + payloads.len() <= usize::MAX,
        waiting.len() + leased.len() + payloads.len() > policy.backlog_quota->0,
        leased.len() + payloads.len() <= policy.backlog_quota->0,
        store::is_scan(s[tenant::pending_name(tenant)], task::prefix_code(queue), waiting),
        all_before(waiting, queue, first),
        first + payloads.len() <= u64::MAX + 1,
    ensures
        ({
            let n = waiting.len() + leased.len() + payloads.len() - policy.backlog_quota->0;
            let next = admission::admission(
                tenant,
                queue,
                policy,
                payloads.len() as usize,
                fam,
                measured(waiting, leased, dead, None),
                now,
            );
            let evict = next->Ok_0->evict->0.ops;
            let added = enqueue::enqueue_ops(tenant, queue, ids, payloads, first, now);
            let left = waiting.skip(n) + fresh_records(queue, ids, payloads, first, now);
            &&& next matches Ok(a) && a is Write && a->evict is Some
            &&& store::is_scan(
                store::apply(store::apply(s, evict), added)[tenant::pending_name(tenant)],
                task::prefix_code(queue),
                left,
            )
            &&& left.len() + leased.len() == policy.backlog_quota->0
        }),
{
    let n = waiting.len() + leased.len() + payloads.len() - policy.backlog_quota->0;
    let cf = tenant::pending_name(tenant);
    let ops = quota::delete_ops(cf, waiting.take(n));
    assert(dequeue::least(n as nat, waiting.len()) == n);
    assert(ops.len() == n);
    outcome::law_evicts_oldest(s, tenant, task::prefix_code(queue), waiting, n);
    let rest = waiting.skip(n);
    assert forall|i: int| 0 <= i < rest.len() implies keys::key_lt(
        (#[trigger] rest[i]).key,
        task::key_code(queue, first),
    ) by {
        assert(rest[i] == waiting[n + i]);
    }
    law_enqueue_appends(
        store::apply(s, ops),
        tenant,
        queue,
        rest,
        ids,
        payloads,
        first,
        now,
    );
}

/// A task that arrives by itself: its id, its payload, when it arrives, and its
/// number.
pub struct Arrival {
    pub id: Seq<char>,
    pub payload: Seq<u8>,
    pub at: u64,
    pub number: u64,
}

/// The numbers grow from one arrival to the next.
pub open spec fn in_turn(v: Seq<Arrival>) -> bool {
    forall|i: int, j: int|
        0 <= i < j < v.len() ==> (#[trigger] v[i]).number < (#[trigger] v[j]).number
}

/// The writes for an arrival.
pub open spec fn arrival_ops(tenant: Seq<char>, queue: Seq<char>, a: Arrival) -> Seq<OpView> {
    enqueue::enqueue_ops(tenant, queue, seq![a.id], seq![a.payload], a.number, a.at)
}

/// The store after arrivals, one after the other.
pub open spec fn after_arrivals(
    s: Store,
    tenant: Seq<char>,
    queue: Seq<char>,
    v: Seq<Arrival>,
) -> Store
    decreases v.len(),
{
    if v.len() == 0 {
        s
    } else {
        store::apply(
            after_arrivals(s, tenant, queue, v.drop_last()),
            arrival_ops(tenant, queue, v.last()),
        )
    }
}

/// The record of an arrival.
pub open spec fn arrival_record(queue: Seq<char>, a: Arrival) -> RecordView {
    RecordView {
        key: task::key_code(queue, a.number),
        value: task::task_code(enqueue::fresh_task(a.id, queue, a.payload, a.at)),
    }
}

/// The records of arrivals, in their order.
pub open spec fn arrival_records(queue: Seq<char>, v: Seq<Arrival>) -> Seq<RecordView> {
    v.map_values(|a: Arrival| arrival_record(queue, a))
}

/// An arrival as it is handed out for the first time.
pub open spec fn arrival_lease(l: Lease, a: Arrival) -> LeasedView {
    (
        task::key_code(l.queue, a.number),
        TaskView {
            id: a.id,
            queue: l.queue,
            payload: a.payload,
            enqueued_at: a.at,
            attempts: 1,
            deadline: l.deadline,
        },
    )
}

/// A task that is added by itself is an arrival with the registry's number, and
/// the next one has the next number.
pub proof fn law_enqueue_is_arrival(
    before: RegistryView,
    after: RegistryView,
    tenant: Seq<char>,
    queue: Seq<char>,
    payload: Seq<u8>,
    now: u64,
    added: Enqueued,
)
    requires
        before.seq < u64::MAX,
        enqueue::appended(before, after, tenant, queue, seq![payload], now, added),
    ensures
        added.batch@.ops == arrival_ops(
            tenant,
            queue,
            Arrival { id: added.ids@[0]@, payload, at: now, number: before.seq },
        ),
        after.seq == before.seq + 1,
{
    assert(enqueue::texts(added.ids@) =~= seq![added.ids@[0]@]);
}

/// Tasks that arrive one after the other, whenever each does, stand in the queue
/// in the order of their arrival, behind what was there.
pub proof fn law_arrivals_in_order(
    s: Store,
    tenant: Seq<char>,
    queue: Seq<char>,
    rs: Seq<RecordView>,
    v: Seq<Arrival>,
)
    requires
        store::is_scan(s[tenant::pending_name(tenant)], task::prefix_code(queue), rs),
        in_turn(v),
        v.len() > 0 ==> all_before(rs, queue, v[0].number),
    ensures
        store::is_scan(
            after_arrivals(s, tenant, queue, v)[tenant::pending_name(tenant)],
            task::prefix_code(queue),
            rs + arrival_records(queue, v),
        ),
    decreases v.len(),
{
    if v.len() == 0 {
        assert(rs + arrival_records(queue, v) =~= rs);
    } else {
        let w = v.drop_last();
        let a = v.last();
        assert forall|i: int, j: int| 0 <= i < j < w.len() implies (#[trigger] w[i]).number < (
        #[trigger] w[j]).number by {
            assert(v[i].number < v[j].number);
        }
        law_arrivals_in_order(s, tenant, queue, rs, w);
        let before = rs + arrival_records(queue, w);
        let key = task::key_code(queue, a.number);
        assert forall|i: int| 0 <= i < before.len() implies keys::key_lt(
            (#[trigger] before[i]).key,
            key,
        ) by {
            if i < rs.len() {
                assert(before[i] == rs[i]);
                let k0 = task::key_code(queue, v[0].number);
                assert(keys::key_lt(rs[i].key, k0));
                if v.len() > 1 {
                    assert(v[0].number < v[v.len() - 1].number);
                    task::law_key_order(queue, v[0].number, a.number);
                    keys::lemma_key_transitive(rs[i].key, k0, key);
                }
            } else {
                let j = i - rs.len();
                assert(v[j].number < v[v.len() - 1].number);
                assert(before[i] == arrival_record(queue, w[j]));
                task::law_key_order(queue, v[j].number, a.number);
            }
        }
        let earlier = after_arrivals(s, tenant, queue, w);
        law_enqueue_appends(
            earlier,
            tenant,
            queue,
            before,
            seq![a.id],
            seq![a.payload],
            a.number,
            a.at,
        );
        let new = fresh_records(queue, seq![a.id], seq![a.payload], a.number, a.at);
        enqueue::lemma_nth_seq_step(a.number, 0);
        assert(new =~= seq![arrival_record(queue, a)]);
        assert(before + new =~= rs + arrival_records(queue, v));
    }
}

/// Arrivals are handed out as they came.
proof fn lemma_arrivals_taken(l: Lease, v: Seq<Arrival>)
    requires
        forall|i: int|
            0 <= i < v.len() ==> enqueue::fresh_task(
                (#[trigger] v[i]).id,
                l.queue,
                v[i].payload,
                v[i].at,
            ).fits(),
    ensures
        dequeue::taken(l, arrival_records(l.queue, v)) == v.map_values(
            |a: Arrival| arrival_lease(l, a),
        ),
    decreases v.len(),
{
    let rs = arrival_records(l.queue, v);
    let out = v.map_values(|a: Arrival| arrival_lease(l, a));
    if v.len() == 0 {
        assert(out =~= Seq::<LeasedView>::empty());
    } else {
        let w = v.drop_last();
        let a = v.last();
        assert forall|i: int| 0 <= i < w.len() implies enqueue::fresh_task(
            (#[trigger] w[i]).id,
            l.queue,
            w[i].payload,
            w[i].at,
        ).fits() by {
            assert(w[i] == v[i]);
        }
        lemma_arrivals_taken(l, w);
        assert(rs.drop_last() =~= arrival_records(l.queue, w));
        let t = enqueue::fresh_task(a.id, l.queue, a.payload, a.at);
        assert(v[v.len() - 1] == a);
        assert(t.fits());
        task::law_task_stored(t);
        assert(rs.last() == arrival_record(l.queue, a));
        assert(dequeue::leased_task(t, l.deadline) =~= arrival_lease(l, a).1);
        assert(out =~= w.map_values(|a: Arrival| arrival_lease(l, a)).push(arrival_lease(l, a)));
    }
}

/// Insertion order is delivery order: tasks that were enqueued one after the
/// other to an empty queue are all dequeued in that order, each with its id and
/// payload, in its first attempt.
pub proof fn law_arrivals_dequeued_in_order(
    s: Store,
    l: Lease,
    fam: Families,
    limit: nat,
    v: Seq<Arrival>,
)
    requires
        fam.pending && fam.inflight && fam.dlq,
        store::is_scan(
            s[tenant::pending_name(l.tenant)],
            task::prefix_code(l.queue),
            Seq::<RecordView>::empty(),
        ),
        in_turn(v),
        limit >= v.len() > 0,
        forall|i: int|
            0 <= i < v.len() ==> enqueue::fresh_task(
                (#[trigger] v[i]).id,
                l.queue,
                v[i].payload,
                v[i].at,
            ).fits(),
    ensures
        ({
            let records = arrival_records(l.queue, v);
            let d = dequeue::dequeued(l, fam, limit, ScanView { records, failure: None });
            &&& store::is_scan(
                after_arrivals(s, l.tenant, l.queue, v)[tenant::pending_name(l.tenant)],
                task::prefix_code(l.queue),
                records,
            )
            &&& d is Ok
            &&& d->Ok_0.tasks.len() == v.len()
            &&& forall|i: int|
                0 <= i < v.len() ==> (#[trigger] d->Ok_0.tasks[i]) == arrival_lease(l, v[i])
        }),
{
    let none = Seq::<RecordView>::empty();
    let records = arrival_records(l.queue, v);
    law_arrivals_in_order(s, l.tenant, l.queue, none, v);
    assert(none + records =~= records);
    assert(records.take(dequeue::least(limit, records.len()) as int) =~= records);
    lemma_arrivals_taken(l, v);
}

/// A call that added a task by itself: the registry around it, the payload, when
/// it was made, and what it gave.
pub struct Addition {
    pub before: RegistryView,
    pub after: RegistryView,
    pub payload: Seq<u8>,
    pub at: u64,
    pub added: Enqueued,
}

/// The calls added a task each, one after the other; numbers may have been given
/// out in between.
pub open spec fn added_in_turn(tenant: Seq<char>, queue: Seq<char>, v: Seq<Addition>) -> bool {
    &&& forall|i: int|
        0 <= i < v.len() ==> (#[trigger] v[i]).before.seq < u64::MAX && enqueue::appended(
            v[i].before,
            v[i].after,
            tenant,
            queue,
            seq![v[i].payload],
            v[i].at,
            v[i].added,
        )
    &&& forall|i: int, j: int|
        0 <= i < j < v.len() ==> (#[trigger] v[i]).after.seq <= (#[trigger] v[j]).before.seq
}

/// The store after the writes of the calls, one after the other.
pub open spec fn after_additions(s: Store, v: Seq<Addition>) -> Store
    decreases v.len(),
{
    if v.len() == 0 {
        s
    } else {
        store::apply(after_additions(s, v.drop_last()), v.last().added.batch@.ops)
    }
}

/// What arrived with a call.
pub open spec fn arrival_of(a: Addition) -> Arrival {
    Arrival { id: a.added.ids@[0]@, payload: a.payload, at: a.at, number: a.before.seq }
}

/// What arrived with calls, in their order.
pub open spec fn arrivals_of(v: Seq<Addition>) -> Seq<Arrival> {
    v.map_values(|a: Addition| arrival_of(a))
}

/// Calls that add a task each are arrivals in turn, and leave the store as these
/// do.
proof fn lemma_additions_arrive(s: Store, tenant: Seq<char>, queue: Seq<char>, v: Seq<Addition>)
    requires
        added_in_turn(tenant, queue, v),
    ensures
        in_turn(arrivals_of(v)),
        after_additions(s, v) == after_arrivals(s, tenant, queue, arrivals_of(v)),
    decreases v.len(),
{
    let arrived = arrivals_of(v);
    assert forall|i: int, j: int| 0 <= i < j < arrived.len() implies (#[trigger] arrived[i]).number
        < (#[trigger] arrived[j]).number by {
        let a = v[i];
        law_enqueue_is_arrival(a.before, a.after, tenant, queue, a.payload, a.at, a.added);
        assert(v[i].after.seq <= v[j].before.seq);
    }
    if v.len() > 0 {
        let w = v.drop_last();
        assert forall|i: int| 0 <= i < w.len() implies (#[trigger] w[i]).before.seq < u64::MAX
            && enqueue::appended(
            w[i].before,
            w[i].after,
            tenant,
            queue,
            seq![w[i].payload],
            w[i].at,
            w[i].added,
        ) by {
            assert(w[i] == v[i]);
        }
        assert forall|i: int, j: int| 0 <= i < j < w.len() implies (#[trigger] w[i]).after.seq <= (
        #[trigger] w[j]).before.seq by {
            assert(v[i].after.seq <= v[j].before.seq);
        }
        lemma_additions_arrive(s, tenant, queue, w);
        assert(arrived.drop_last() =~= arrivals_of(w));
        let a = v[v.len() - 1];
        law_enqueue_is_arrival(a.before, a.after, tenant, queue, a.payload, a.at, a.added);
        assert(arrived.last() == arrival_of(a));
    }
}

/// What went in comes out in the same order: after any number of enqueues to an
/// empty queue, one after the other, a dequeue of at least as many gives them all
/// as they were enqueued, each with its payload, the id that its enqueue gave, and
/// its first attempt.
pub proof fn law_enqueues_dequeued_in_order(
    s: Store,
    l: Lease,
    fam: Families,
    limit: nat,
    v: Seq<Addition>,
)
    requires
        fam.pending && fam.inflight && fam.dlq,
        store::is_scan(
            s[tenant::pending_name(l.tenant)],
            task::prefix_code(l.queue),
            Seq::<RecordView>::empty(),
        ),
        added_in_turn(l.tenant, l.queue, v),
        limit >= v.len() > 0,
        forall|i: int|
            0 <= i < v.len() ==> enqueue::fresh_task(
                (#[trigger] v[i]).added.ids@[0]@,
                l.queue,
                v[i].payload,
                v[i].at,
            ).fits(),
    ensures
        forall|scan: ScanView| #[trigger]
            store::is_scan(
                after_additions(s, v)[tenant::pending_name(l.tenant)],
                task::prefix_code(l.queue),
                scan.records,
            ) && scan.failure is None ==> {
                let d = dequeue::dequeued(l, fam, limit, scan);
                &&& d is Ok
                &&& d->Ok_0.tasks.len() == v.len()
                &&& forall|i: int|
                    0 <= i < v.len() ==> {
                        let t = (#[trigger] d->Ok_0.tasks[i]).1;
                        t.payload == v[i].payload && t.id == v[i].added.ids@[0]@ && t.attempts == 1
                    }
            },
{
    let arrived = arrivals_of(v);
    lemma_additions_arrive(s, l.tenant, l.queue, v);
    assert forall|i: int| 0 <= i < arrived.len() implies enqueue::fresh_task(
        (#[trigger] arrived[i]).id,
        l.queue,
        arrived[i].payload,
        arrived[i].at,
    ).fits() by {
        assert(arrived[i] == arrival_of(v[i]));
    }
    law_arrivals_dequeued_in_order(s, l, fam, limit, arrived);
    let table = after_additions(s, v)[tenant::pending_name(l.tenant)];
    let prefix = task::prefix_code(l.queue);
    let records = arrival_records(l.queue, arrived);
    assert forall|scan: ScanView| #[trigger]
        store::is_scan(table, prefix, scan.records) && scan.failure is None implies {
        let d = dequeue::dequeued(l, fam, limit, scan);
        &&& d is Ok
        &&& d->Ok_0.tasks.len() == v.len()
        &&& forall|i: int|
            0 <= i < v.len() ==> {
                let t = (#[trigger] d->Ok_0.tasks[i]).1;
                t.payload == v[i].payload && t.id == v[i].added.ids@[0]@ && t.attempts == 1
            }
    } by {
        store::lemma_scan_unique(table, prefix, scan.records, records);
        assert(scan == ScanView { records, failure: None });
        let d = dequeue::dequeued(l, fam, limit, scan);
        assert forall|i: int| 0 <= i < v.len() implies {
            let t = (#[trigger] d->Ok_0.tasks[i]).1;
            t.payload == v[i].payload && t.id == v[i].added.ids@[0]@ && t.attempts == 1
        } by {
            assert(d->Ok_0.tasks[i] == arrival_lease(l, arrived[i]));
            assert(arrived[i] == arrival_of(v[i]));
        }
    }
}

/// The two changes for each record stand side by side.
proof fn lemma_take_ops_at(l: Lease, rs: Seq<RecordView>)
    ensures
        dequeue::take_all_ops(l, rs).len() == 2 * rs.len(),
        forall|i: int|
            0 <= i < rs.len() ==> dequeue::take_all_ops(l, rs)[2 * i] == dequeue::take_ops(
                l,
                #[trigger] rs[i],
            )[0] && dequeue::take_all_ops(l, rs)[2 * i + 1] == dequeue::take_ops(l, rs[i])[1],
    decreases rs.len(),
{
    if rs.len() > 0 {
        let rest = rs.drop_last();
        lemma_take_ops_at(l, rest);
        let ops = dequeue::take_all_ops(l, rs);
        assert forall|i: int| 0 <= i < rs.len() implies ops[2 * i] == dequeue::take_ops(
            l,
            #[trigger] rs[i],
        )[0] && ops[2 * i + 1] == dequeue::take_ops(l, rs[i])[1] by {
            if i < rest.len() {
                assert(rest[i] == rs[i]);
            }
        }
    }
}

/// Which changes of a dequeue are about a key of a family.
proof fn lemma_take_touches(l: Lease, rs: Seq<RecordView>, j: int, cf: Seq<char>, key: Seq<u8>)
    requires
        0 <= j < 2 * rs.len(),
        store::touches(dequeue::take_all_ops(l, rs)[j], cf, key),
    ensures
        rs[j / 2].key == key,
        j % 2 == 0 <==> cf == tenant::pending_name(l.tenant),
        j % 2 == 1 ==> cf == (if task::read_task(rs[j / 2].value) is Some {
            tenant::inflight_name(l.tenant)
        } else {
            tenant::dlq_name(l.tenant)
        }),
{
    lemma_take_ops_at(l, rs);
    isolation::law_families_distinct(l.tenant, l.tenant);
    let i = j / 2;
    assert(rs[i] == rs[i]);
    assert(j == 2 * i || j == 2 * i + 1);
}

/// A dequeue moves and loses nothing: every record that it looks at leaves the
/// waiting tasks, and is found under the same key among the leased ones, with one
/// more attempt and its deadline, or, if it is no task, with its bytes among the
/// dead letters.
pub proof fn law_dequeue_moves(s: Store, l: Lease, rs: Seq<RecordView>, i: int)
    requires
        store::ascending(rs),
        0 <= i < rs.len(),
    ensures
        ({
            let t = store::apply(s, dequeue::take_all_ops(l, rs));
            let r = rs[i];
            &&& store::look(t, tenant::pending_name(l.tenant), r.key) is None
            &&& match task::read_task(r.value) {
                Some(found) => store::look(t, tenant::inflight_name(l.tenant), r.key) == Some(
                    task::task_code(dequeue::leased_task(found, l.deadline)),
                ),
                None => store::look(t, tenant::dlq_name(l.tenant), r.key) == Some(
                    task::task_code(task::poison_view(l.queue, r.value, l.now)),
                ),
            }
        }),
{
    let ops = dequeue::take_all_ops(l, rs);
    let r = rs[i];
    let pending = tenant::pending_name(l.tenant);
    let to = if task::read_task(r.value) is Some {
        tenant::inflight_name(l.tenant)
    } else {
        tenant::dlq_name(l.tenant)
    };
    lemma_take_ops_at(l, rs);
    isolation::law_families_distinct(l.tenant, l.tenant);
    assert forall|j: int| 2 * i < j < ops.len() implies !store::touches(
        #[trigger] ops[j],
        pending,
        r.key,
    ) by {
        if store::touches(ops[j], pending, r.key) {
            lemma_take_touches(l, rs, j, pending, r.key);
            store::lemma_ascending_distinct(rs, i, j / 2);
        }
    }
    store::lemma_last_touch(s, ops, pending, r.key, 2 * i);
    assert forall|j: int| 2 * i + 1 < j < ops.len() implies !store::touches(
        #[trigger] ops[j],
        to,
        r.key,
    ) by {
        if store::touches(ops[j], to, r.key) {
            lemma_take_touches(l, rs, j, to, r.key);
            store::lemma_ascending_distinct(rs, i, j / 2);
        }
    }
    store::lemma_last_touch(s, ops, to, r.key, 2 * i + 1);
}

/// A dequeue leaves everything else as it is: entries whose keys it did not
/// look at.
pub proof fn law_dequeue_spares(
    s: Store,
    l: Lease,
    rs: Seq<RecordView>,
    cf: Seq<char>,
    key: Seq<u8>,
)
    requires
        !store::has_key(rs, key),
    ensures
        store::look(store::apply(s, dequeue::take_all_ops(l, rs)), cf, key) == store::look(
            s,
            cf,
            key,
        ),
{
    let ops = dequeue::take_all_ops(l, rs);
    lemma_take_ops_at(l, rs);
    assert forall|j: int| 0 <= j < ops.len() implies !store::touches(#[trigger] ops[j], cf, key) by {
        if store::touches(ops[j], cf, key) {
            lemma_take_touches(l, rs, j, cf, key);
            assert(rs[j / 2].key == key);
        }
    }
    store::lemma_untouched(s, ops, cf, key);
}

/// Every dequeued task stands in the leased family under the key that came
/// with it, and is read back from there.
pub proof fn law_dequeued_is_leased(s: Store, l: Lease, rs: Seq<RecordView>, k: int)
    requires
        store::ascending(rs),
        0 <= k < dequeue::taken(l, rs).len(),
        forall|i: int| 0 <= i < rs.len() ==> (#[trigger] rs[i]).value.len() <= u64::MAX,
    ensures
        ({
            let (key, t) = dequeue::taken(l, rs)[k];
            let found = store::look(
                store::apply(s, dequeue::take_all_ops(l, rs)),
                tenant::inflight_name(l.tenant),
                key,
            );
            found is Some && task::read_task(found->0) == Some(t)
        }),
{
    let i = lemma_taken_from(l, rs, k);
    law_dequeue_moves(s, l, rs, i);
    let found = task::read_task(rs[i].value)->0;
    task::lemma_read_task_fits(rs[i].value);
    task::law_task_stored(dequeue::leased_task(found, l.deadline));
}

/// The record that a dequeued task comes from.
proof fn lemma_taken_from(l: Lease, rs: Seq<RecordView>, k: int) -> (i: int)
    requires
        0 <= k < dequeue::taken(l, rs).len(),
    ensures
        0 <= i < rs.len(),
        task::read_task(rs[i].value) is Some,
        dequeue::taken(l, rs)[k] == (
            rs[i].key,
            dequeue::leased_task(task::read_task(rs[i].value)->0, l.deadline),
        ),
    decreases rs.len(),
{
    let rest = rs.drop_last();
    if k < dequeue::taken(l, rest).len() {
        let i = lemma_taken_from(l, rest, k);
        assert(rest[i] == rs[i]);
        i
    } else {
        rs.len() - 1
    }
}

/// A task is handed out at most once at a time: what was dequeued is not
/// waiting any more, so no scan of the waiting tasks meets it again.
pub proof fn law_no_double_delivery(
    s: Store,
    l: Lease,
    rs: Seq<RecordView>,
    next: Seq<RecordView>,
    i: int,
)
    requires
        store::ascending(rs),
        0 <= i < rs.len(),
        store::is_scan(
            store::apply(s, dequeue::take_all_ops(l, rs))[tenant::pending_name(l.tenant)],
            task::prefix_code(l.queue),
            next,
        ),
    ensures
        !store::has_key(next, rs[i].key),
{
    law_dequeue_moves(s, l, rs, i);
    if store::has_key(next, rs[i].key) {
        let j = choose|j: int| 0 <= j < next.len() && (#[trigger] next[j]).key == rs[i].key;
        assert(next[j].key == rs[i].key);
    }
}

/// A dequeue never leases more than it may: with a bound on leases, the leased
/// tasks and the new ones together stay within it.
pub proof fn law_lease_bound(
    l: Lease,
    fam: Families,
    limit: nat,
    max_inflight: nat,
    leased: ScanView,
    scan: ScanView,
    d: DequeuedView,
)
    requires
        dequeue::dequeued_within(l, fam, limit, max_inflight, leased, scan) == Ok::<
            DequeuedView,
            Fault,
        >(d),
        leased.records.len() <= max_inflight,
        leased.failure is None,
    ensures
        leased.records.len() + d.tasks.len() <= max_inflight,
        d.tasks.len() <= limit,
{
    let n = dequeue::room_within(limit, max_inflight, leased.records.len());
    let m = dequeue::least(n, scan.records.len());
    lemma_taken_len(l, scan.records.take(m as int));
}

/// No more tasks come out than records went in.
proof fn lemma_taken_len(l: Lease, rs: Seq<RecordView>)
    ensures
        dequeue::taken(l, rs).len() <= rs.len(),
    decreases rs.len(),
{
    if rs.len() > 0 {
        lemma_taken_len(l, rs.drop_last());
    }
}

/// A task is handed out as it waited, but for one more attempt and the end of the
/// lease: whatever became of it before, it has the whole timeout from now, or as
/// much of it as can be written down.
pub proof fn law_lease_lasts_the_timeout(
    tenant: Seq<char>,
    queue: Seq<char>,
    fam: Families,
    limit: nat,
    timeout_ms: u64,
    now: u64,
    scan: ScanView,
    d: DequeuedView,
    k: int,
)
    requires
        dequeue::dequeued(
            (Lease { tenant, queue, now, deadline: dequeue::lease_end(now, timeout_ms) }),
            fam,
            limit,
            scan,
        ) == Ok::<DequeuedView, Fault>(d),
        0 <= k < d.tasks.len(),
    ensures
        ({
            let t = d.tasks[k].1;
            &&& t.deadline <= now + timeout_ms
            &&& t.deadline == now + timeout_ms || t.deadline == u64::MAX
            &&& exists|i: int|
                0 <= i < scan.records.len() && i < limit && (#[trigger] scan.records[i]).key
                    == d.tasks[k].0 && (task::read_task(scan.records[i].value) matches Some(w)
                    && t.id == w.id && t.queue == w.queue && t.payload == w.payload
                    && t.enqueued_at == w.enqueued_at && (w.attempts < u32::MAX ==> t.attempts
                    == w.attempts + 1))
        }),
{
    let l = Lease { tenant, queue, now, deadline: dequeue::lease_end(now, timeout_ms) };
    let rs = scan.records.take(dequeue::least(limit, scan.records.len()) as int);
    let i = lemma_taken_from(l, rs, k);
    assert(scan.records[i] == rs[i]);
}

/// What a worker is given is what is kept of it: every task that is handed out is
/// read back, with its deadline and its attempts, from the leased ones under the
/// key that came with it, and waits no more.
pub proof fn law_handed_out_is_kept(
    s: Store,
    l: Lease,
    fam: Families,
    limit: nat,
    scan: ScanView,
    d: DequeuedView,
    k: int,
)
    requires
        dequeue::dequeued(l, fam, limit, scan) == Ok::<DequeuedView, Fault>(d),
        0 <= k < d.tasks.len(),
        store::ascending(scan.records),
        forall|i: int| 0 <= i < scan.records.len() ==> (#[trigger] scan.records[i]).value.len()
            <= u64::MAX,
    ensures
        d.batch is Some,
        ({
            let after = store::apply(s, d.batch->0.ops);
            let (key, t) = d.tasks[k];
            let kept = store::look(after, l.tenant + "__inflight"@, key);
            &&& kept is Some
            &&& task::read_task(kept->0) == Some(t)
            &&& store::look(after, l.tenant + "__pending"@, key) is None
        }),
{
    let n = dequeue::least(limit, scan.records.len()) as int;
    let rs = scan.records.take(n);
    assert forall|i: int, j: int| 0 <= i < j < rs.len() implies keys::key_lt(
        #[trigger] rs[i].key,
        #[trigger] rs[j].key,
    ) by {
        assert(keys::key_lt(scan.records[i].key, scan.records[j].key));
    }
    assert forall|i: int| 0 <= i < rs.len() implies (#[trigger] rs[i]).value.len() <= u64::MAX by {
        assert(rs[i] == scan.records[i]);
    }
    let i = lemma_taken_from(l, rs, k);
    lemma_take_ops_at(l, rs);
    law_dequeued_is_leased(s, l, rs, k);
    law_dequeue_moves(s, l, rs, i);
}

/// A dequeue takes the oldest and skips none: of the first records, as many as the
/// limit, each that is a task is handed out, and nothing else is; they come in the
/// order of their keys.
pub proof fn law_dequeue_takes_the_oldest(
    l: Lease,
    fam: Families,
    limit: nat,
    scan: ScanView,
    d: DequeuedView,
)
    requires
        dequeue::dequeued(l, fam, limit, scan) == Ok::<DequeuedView, Fault>(d),
        store::ascending(scan.records),
    ensures
        d.tasks.len() <= limit,
        forall|i: int|
            #![trigger scan.records[i]]
            0 <= i < scan.records.len() && i < limit && task::read_task(scan.records[i].value) is Some
                ==> exists|k: int|
                0 <= k < d.tasks.len() && (#[trigger] d.tasks[k]).0 == scan.records[i].key,
        forall|j: int, k: int|
            0 <= j < k < d.tasks.len() ==> keys::key_lt(
                (#[trigger] d.tasks[j]).0,
                (#[trigger] d.tasks[k]).0,
            ),
{
    let rs = scan.records.take(dequeue::least(limit, scan.records.len()) as int);
    if limit > 0 {
        lemma_taken_len(l, rs);
        assert forall|i: int, j: int| 0 <= i < j < rs.len() implies keys::key_lt(
            #[trigger] rs[i].key,
            #[trigger] rs[j].key,
        ) by {
            assert(keys::key_lt(scan.records[i].key, scan.records[j].key));
        }
        lemma_taken_all(l, rs);
        assert forall|i: int|
            #![trigger scan.records[i]]
            0 <= i < scan.records.len() && i < limit && task::read_task(
                scan.records[i].value,
            ) is Some implies exists|k: int|
            0 <= k < d.tasks.len() && (#[trigger] d.tasks[k]).0 == scan.records[i].key by {
            assert(rs[i] == scan.records[i]);
            let all = dequeue::taken(l, rs);
            let k = choose|k: int| 0 <= k < all.len() && (#[trigger] all[k]).0 == rs[i].key;
            assert(d.tasks[k] == all[k]);
        }
    }
}

/// Every task among the records is taken, in the order of the keys.
proof fn lemma_taken_all(l: Lease, rs: Seq<RecordView>)
    requires
        store::ascending(rs),
    ensures
        forall|i: int|
            #![trigger rs[i]]
            0 <= i < rs.len() && task::read_task(rs[i].value) is Some ==> exists|k: int|
                0 <= k < dequeue::taken(l, rs).len() && (#[trigger] dequeue::taken(l, rs)[k]).0
                    == rs[i].key,
        forall|j: int, k: int|
            0 <= j < k < dequeue::taken(l, rs).len() ==> keys::key_lt(
                (#[trigger] dequeue::taken(l, rs)[j]).0,
                (#[trigger] dequeue::taken(l, rs)[k]).0,
            ),
    decreases rs.len(),
{
    if rs.len() > 0 {
        let rest = rs.drop_last();
        assert forall|i: int, j: int| 0 <= i < j < rest.len() implies keys::key_lt(
            #[trigger] rest[i].key,
            #[trigger] rest[j].key,
        ) by {
            assert(keys::key_lt(rs[i].key, rs[j].key));
        }
        lemma_taken_all(l, rest);
        let before = dequeue::taken(l, rest);
        let all = dequeue::taken(l, rs);
        assert forall|i: int|
            #![trigger rs[i]]
            0 <= i < rs.len() && task::read_task(rs[i].value) is Some implies exists|k: int|
            0 <= k < all.len() && (#[trigger] all[k]).0 == rs[i].key by {
            if i < rest.len() {
                assert(rest[i] == rs[i]);
                let k = choose|k: int|
                    0 <= k < before.len() && (#[trigger] before[k]).0 == rest[i].key;
                assert(all[k] == before[k]);
            } else {
                assert(all[all.len() - 1].0 == rs[i].key);
            }
        }
        assert forall|j: int, k: int| 0 <= j < k < all.len() implies keys::key_lt(
            (#[trigger] all[j]).0,
            (#[trigger] all[k]).0,
        ) by {
            if k < before.len() {
                assert(all[j] == before[j] && all[k] == before[k]);
            } else {
                let i = lemma_taken_from(l, rest, j);
                assert(all[j] == before[j]);
                assert(keys::key_lt(rs[i].key, rs[rs.len() - 1].key));
            }
        }
    }
}

/// A dequeue writes only about the records that it looks at: those behind the limit
/// stay where they are.
pub proof fn law_dequeue_leaves_the_rest(
    s: Store,
    l: Lease,
    fam: Families,
    limit: nat,
    scan: ScanView,
    d: DequeuedView,
    i: int,
    cf: Seq<char>,
)
    requires
        dequeue::dequeued(l, fam, limit, scan) == Ok::<DequeuedView, Fault>(d),
        store::ascending(scan.records),
        limit <= i < scan.records.len(),
        d.batch is Some,
    ensures
        store::look(store::apply(s, d.batch->0.ops), cf, scan.records[i].key) == store::look(
            s,
            cf,
            scan.records[i].key,
        ),
{
    let rs = scan.records.take(dequeue::least(limit, scan.records.len()) as int);
    let key = scan.records[i].key;
    if store::has_key(rs, key) {
        let j = choose|j: int| 0 <= j < rs.len() && (#[trigger] rs[j]).key == key;
        assert(rs[j] == scan.records[j]);
        store::lemma_ascending_distinct(scan.records, i, j);
    }
    law_dequeue_spares(s, l, rs, cf, key);
}

/// When a dequeue succeeds: where nothing is asked for, and else where the families
/// are there and nothing failed before the limit was reached. It writes nothing
/// where it looked at nothing, and else without waiting for the disk.
pub proof fn law_dequeue_succeeds(l: Lease, fam: Families, limit: nat, scan: ScanView)
    ensures
        ({
            let r = dequeue::dequeued(l, fam, limit, scan);
            &&& r is Ok <==> limit == 0 || (fam.pending && fam.inflight && fam.dlq && (
            scan.failure is None || scan.records.len() >= limit))
            &&& r is Ok ==> (r->Ok_0.batch is None <==> limit == 0 || scan.records.len() == 0)
            &&& r is Ok && r->Ok_0.batch is Some ==> !r->Ok_0.batch->0.sync
        }),
{
    if limit > 0 {
        let rs = scan.records.take(dequeue::least(limit, scan.records.len()) as int);
        lemma_take_ops_at(l, rs);
    }
}

/// The room for new leases: with a bound, as many records are looked at as are asked
/// for and as fit, and no fewer.
pub proof fn law_bound_leaves_room(
    l: Lease,
    fam: Families,
    limit: nat,
    max_inflight: nat,
    leased: ScanView,
    scan: ScanView,
)
    requires
        fam.inflight,
        leased.failure is None,
    ensures
        leased.records.len() >= max_inflight ==> (dequeue::dequeued_within(
            l,
            fam,
            limit,
            max_inflight,
            leased,
            scan,
        ) matches Ok(d) && d.tasks.len() == 0 && d.batch is None),
        leased.records.len() < max_inflight && limit + leased.records.len() <= max_inflight
            ==> dequeue::dequeued_within(l, fam, limit, max_inflight, leased, scan)
            == dequeue::dequeued(l, fam, limit, scan),
        leased.records.len() < max_inflight && limit + leased.records.len() > max_inflight
            ==> dequeue::dequeued_within(l, fam, limit, max_inflight, leased, scan)
            == dequeue::dequeued(
            l,
            fam,
            (max_inflight - leased.records.len()) as nat,
            scan,
        ),
{
}

/// The usual lease lasts a minute.
pub proof fn law_usual_lease_is_a_minute(now: u64)
    requires
        now + 60_000 <= u64::MAX,
    ensures
        dequeue::lease_end(now, tenant::DEFAULT_VISIBILITY_TIMEOUT_MS) - now == 60_000,
{
}

/// The task is the candidate's, leased.
spec fn leased_from(l: Lease, c: CandidateView, t: LeasedView) -> bool {
    !c.held && c.record.key == t.0 && task::read_task(c.record.value) is Some && t.1
        == dequeue::leased_task(task::read_task(c.record.value)->0, l.deadline)
}

/// Where a task that is leased in place comes from.
proof fn lemma_leased_from(l: Lease, limit: nat, cs: Seq<CandidateView>, k: int) -> (i: int)
    requires
        dequeue::leased_in_place(l, limit, cs) is Ok,
        0 <= k < dequeue::leased_in_place(l, limit, cs)->Ok_0.len(),
    ensures
        0 <= i < cs.len(),
        leased_from(l, cs[i], dequeue::leased_in_place(l, limit, cs)->Ok_0[k]),
    decreases cs.len(),
{
    let rest = cs.drop_last();
    let before = dequeue::leased_in_place(l, limit, rest)->Ok_0;
    if k < before.len() {
        let i = lemma_leased_from(l, limit, rest, k);
        assert(cs[i] == rest[i]);
        i
    } else {
        cs.len() - 1
    }
}

/// No more tasks are leased in place than asked for.
proof fn lemma_leased_len(l: Lease, limit: nat, cs: Seq<CandidateView>)
    requires
        dequeue::leased_in_place(l, limit, cs) is Ok,
    ensures
        dequeue::leased_in_place(l, limit, cs)->Ok_0.len() <= limit,
    decreases cs.len(),
{
    if cs.len() > 0 {
        lemma_leased_len(l, limit, cs.drop_last());
    }
}

/// Where the limit is not reached every free candidate's task is leased in place.
proof fn lemma_leased_all(l: Lease, limit: nat, cs: Seq<CandidateView>, i: int) -> (k: int)
    requires
        dequeue::leased_in_place(l, limit, cs) is Ok,
        dequeue::leased_in_place(l, limit, cs)->Ok_0.len() < limit,
        0 <= i < cs.len(),
        !cs[i].held,
    ensures
        0 <= k < dequeue::leased_in_place(l, limit, cs)->Ok_0.len(),
        dequeue::leased_in_place(l, limit, cs)->Ok_0[k].0 == cs[i].record.key,
    decreases cs.len(),
{
    let rest = cs.drop_last();
    if i < rest.len() {
        assert(rest[i] == cs[i]);
        lemma_leased_all(l, limit, rest, i)
    } else {
        dequeue::leased_in_place(l, limit, cs)->Ok_0.len() - 1
    }
}

/// Leasing in place: nothing that is held is handed out again, each task is as it
/// waited but for one more attempt and the end of the lease, no more come out than
/// were asked for, and where fewer do, every task that was free is among them.
pub proof fn law_lease_in_place(
    tenant: Seq<char>,
    queue: Seq<char>,
    limit: nat,
    timeout_ms: u64,
    now: u64,
    cs: Seq<CandidateView>,
    ts: Seq<LeasedView>,
)
    requires
        dequeue::leased_in_place(
            (Lease { tenant, queue, now, deadline: dequeue::lease_end(now, timeout_ms) }),
            limit,
            cs,
        ) == Ok::<Seq<LeasedView>, Fault>(ts),
    ensures
        ts.len() <= limit,
        ts.len() < limit ==> forall|i: int|
            0 <= i < cs.len() && !(#[trigger] cs[i]).held ==> exists|k: int|
                0 <= k < ts.len() && (#[trigger] ts[k]).0 == cs[i].record.key,
        forall|k: int|
            0 <= k < ts.len() ==> {
                let t = (#[trigger] ts[k]).1;
                &&& t.deadline <= now + timeout_ms
                &&& t.deadline == now + timeout_ms || t.deadline == u64::MAX
                &&& exists|i: int|
                    #![trigger cs[i]]
                    0 <= i < cs.len() && !cs[i].held && cs[i].record.key == ts[k].0 && (
                    task::read_task(cs[i].record.value) matches Some(w) && t.id == w.id && t.queue
                        == w.queue && t.payload == w.payload && t.enqueued_at == w.enqueued_at && (
                    w.attempts < u32::MAX ==> t.attempts == w.attempts + 1))
            },
{
    let l = Lease { tenant, queue, now, deadline: dequeue::lease_end(now, timeout_ms) };
    lemma_leased_len(l, limit, cs);
    if ts.len() < limit {
        assert forall|i: int| 0 <= i < cs.len() && !(#[trigger] cs[i]).held implies exists|k: int|
            0 <= k < ts.len() && (#[trigger] ts[k]).0 == cs[i].record.key by {
            let k = lemma_leased_all(l, limit, cs, i);
            assert(ts[k].0 == cs[i].record.key);
        }
    }
    assert forall|k: int| 0 <= k < ts.len() implies {
        let t = (#[trigger] ts[k]).1;
        &&& t.deadline <= now + timeout_ms
        &&& t.deadline == now + timeout_ms || t.deadline == u64::MAX
        &&& exists|i: int|
            #![trigger cs[i]]
            0 <= i < cs.len() && !cs[i].held && cs[i].record.key == ts[k].0 && (task::read_task(
                cs[i].record.value,
            ) matches Some(w) && t.id == w.id && t.queue == w.queue && t.payload == w.payload
                && t.enqueued_at == w.enqueued_at && (w.attempts < u32::MAX ==> t.attempts
                == w.attempts + 1))
    } by {
        let i = lemma_leased_from(l, limit, cs, k);
        assert(cs[i].record.key == ts[k].0);
    }
}

/// Leasing in place fails for bytes that are no task only where they are free, and
/// nothing fails where all that is free is a task.
pub proof fn law_lease_in_place_fails(l: Lease, limit: nat, cs: Seq<CandidateView>)
    ensures
        dequeue::leased_in_place(l, limit, cs) is Err ==> exists|i: int|
            0 <= i < cs.len() && !(#[trigger] cs[i]).held && task::read_task(
                cs[i].record.value,
            ) is None,
    decreases cs.len(),
{
    if cs.len() > 0 {
        let rest = cs.drop_last();
        law_lease_in_place_fails(l, limit, rest);
        if dequeue::leased_in_place(l, limit, rest) is Err {
            let i = choose|i: int|
                0 <= i < rest.len() && !(#[trigger] rest[i]).held && task::read_task(
                    rest[i].record.value,
                ) is None;
            assert(cs[i] == rest[i]);
        } else {
            assert(cs[cs.len() - 1] == cs.last());
        }
    }
}

/// A lease record tells the attempts in its first four bytes and the end of the
/// lease in the other eight.
pub proof fn law_lease_record_tells(attempts: u32, deadline: u64)
    ensures
        dequeue::lease_code(attempts, deadline).len() == 12,
        keys::be_value(dequeue::lease_code(attempts, deadline).take(4)) == attempts,
        keys::be_value(dequeue::lease_code(attempts, deadline).skip(4)) == deadline,
{
    let a = keys::be_bytes(attempts as nat, 4);
    let b = keys::be_bytes(deadline as nat, 8);
    keys::lemma_be_len(attempts as nat, 4);
    keys::lemma_be_len(deadline as nat, 8);
    assert(dequeue::lease_code(attempts, deadline).take(4) =~= a);
    assert(dequeue::lease_code(attempts, deadline).skip(4) =~= b);
    task::lemma_pow256_8();
    assert(keys::pow256(4) == 0x1_0000_0000) by {
        reveal_with_fuel(keys::pow256, 5);
    }
    keys::lemma_be_value(attempts as nat, 4);
    keys::lemma_be_value(deadline as nat, 8);
}

/// What leasing in place writes: one lease record for each task, under its key, that
/// tells its attempts and its deadline.
pub proof fn law_lease_in_place_writes(
    l: Lease,
    fam: Families,
    limit: nat,
    cs: Seq<CandidateView>,
    failure: Option<Seq<char>>,
    d: DequeuedView,
)
    requires
        dequeue::lease_outcome(l, fam, limit, cs, failure) == Ok::<DequeuedView, Fault>(d),
    ensures
        d.batch is None <==> d.tasks.len() == 0,
        d.batch is Some ==> {
            let ops = d.batch->0.ops;
            &&& !d.batch->0.sync
            &&& ops.len() == d.tasks.len()
            &&& forall|i: int|
                0 <= i < ops.len() ==> ((#[trigger] ops[i]) matches OpView::Put { cf, key, value }
                    && cf == l.tenant + "__inflight"@ && key == d.tasks[i].0 && keys::be_value(
                    value.take(4),
                ) == d.tasks[i].1.attempts && keys::be_value(value.skip(4))
                    == d.tasks[i].1.deadline)
        },
{
    if d.batch is Some {
        let ops = d.batch->0.ops;
        assert forall|i: int| 0 <= i < ops.len() implies ((#[trigger] ops[i]) matches OpView::Put {
            cf,
            key,
            value,
        } && cf == l.tenant + "__inflight"@ && key == d.tasks[i].0 && keys::be_value(value.take(4))
            == d.tasks[i].1.attempts && keys::be_value(value.skip(4)) == d.tasks[i].1.deadline) by {
            law_lease_record_tells(d.tasks[i].1.attempts, d.tasks[i].1.deadline);
        }
    }
}

/// When leasing in place succeeds.
pub proof fn law_lease_in_place_succeeds(
    l: Lease,
    fam: Families,
    limit: nat,
    cs: Seq<CandidateView>,
    failure: Option<Seq<char>>,
)
    requires
        limit > 0,
        fam.pending && fam.inflight,
        failure is None,
        forall|i: int|
            0 <= i < cs.len() ==> (#[trigger] cs[i]).held || task::read_task(
                cs[i].record.value,
            ) is Some,
    ensures
        dequeue::lease_outcome(l, fam, limit, cs, failure) is Ok,
{
    law_lease_in_place_fails(l, limit, cs);
}

/// Candidates are leased in their order: one more candidate adds its task at the end
/// where it is free and there is room, spoils the lease where it is free and no task,
/// and else changes nothing.
pub proof fn law_lease_in_place_in_turn(
    l: Lease,
    limit: nat,
    cs: Seq<CandidateView>,
    c: CandidateView,
)
    ensures
        dequeue::leased_in_place(l, limit, Seq::empty()) matches Ok(ts) && ts.len() == 0,
        dequeue::leased_in_place(l, limit, cs) is Err ==> dequeue::leased_in_place(
            l,
            limit,
            cs.push(c),
        ) == dequeue::leased_in_place(l, limit, cs),
        dequeue::leased_in_place(l, limit, cs) matches Ok(ts) ==> {
            let next = dequeue::leased_in_place(l, limit, cs.push(c));
            if ts.len() >= limit || c.held {
                next == Ok::<Seq<LeasedView>, Fault>(ts)
            } else if task::read_task(c.record.value) is None {
                next == Err::<Seq<LeasedView>, Fault>(Fault::Serialization)
            } else {
                &&& next is Ok
                &&& next->Ok_0.len() == ts.len() + 1
                &&& next->Ok_0.drop_last() == ts
                &&& next->Ok_0.last().0 == c.record.key
            }
        },
{
    assert(cs.push(c).drop_last() =~= cs);
    if let Ok(ts) = dequeue::leased_in_place(l, limit, cs) {
        let next = dequeue::leased_in_place(l, limit, cs.push(c));
        if next is Ok && next->Ok_0 != ts {
            assert(next->Ok_0.drop_last() =~= ts);
        }
    }
}

/// A new task is written as it came: each payload in a task of its own among the
/// waiting ones, with its id, its queue and the time, no attempt and no lease, under
/// the first number and, for each further one, the next.
pub proof fn law_enqueue_writes(
    tenant: Seq<char>,
    queue: Seq<char>,
    ids: Seq<Seq<char>>,
    payloads: Seq<Seq<u8>>,
    first: u64,
    now: u64,
    i: int,
)
    requires
        0 <= i < payloads.len(),
        first + i <= u64::MAX,
        vstd::utf8::encode_utf8(ids[i]).len() <= u64::MAX,
        vstd::utf8::encode_utf8(queue).len() <= u64::MAX,
        payloads[i].len() <= u64::MAX,
    ensures
        ({
            let ops = enqueue::enqueue_ops(tenant, queue, ids, payloads, first, now);
            &&& ops.len() == payloads.len()
            &&& ops[i] matches OpView::Put { cf, key, value } && cf == tenant + "__pending"@ && key
                == task::key_code(queue, (first + i) as u64) && (task::read_task(value) matches Some(
                t,
            ) && t.id == ids[i] && t.queue == queue && t.payload == payloads[i] && t.enqueued_at
                == now && t.attempts == 0 && t.deadline == 0)
        }),
{
    task::law_task_stored(enqueue::fresh_task(ids[i], queue, payloads[i], now));
    assert(enqueue::nth_seq(first, i) == first + i);
}

/// What a call that added tasks gives and leaves: an id for each payload, one write
/// for each that does not wait for the disk, and the number behind the last; numbers
/// begin anew after the largest.
pub proof fn law_enqueue_gives(
    before: RegistryView,
    after: RegistryView,
    tenant: Seq<char>,
    queue: Seq<char>,
    payloads: Seq<Seq<u8>>,
    now: u64,
    added: Enqueued,
)
    requires
        enqueue::appended(before, after, tenant, queue, payloads, now, added),
    ensures
        added.ids@.len() == payloads.len(),
        !added.batch@.sync,
        added.batch@.ops == enqueue::enqueue_ops(
            tenant,
            queue,
            added.ids@.map_values(|s: String| s@),
            payloads,
            before.seq,
            now,
        ),
        before.seq + payloads.len() <= u64::MAX ==> after.seq == before.seq + payloads.len(),
        before.seq + payloads.len() == u64::MAX + 1 ==> after.seq == 0,
        after.policies == before.policies,
        after.counters == before.counters,
{
}

/// What an enqueue does first: it measures where there is a quota, and writes at once
/// where there is none.
pub proof fn law_enqueue_begins(
    tenant: Seq<char>,
    queue: Seq<char>,
    policy: PolicyView,
    incoming: usize,
    fam: Families,
    event: EventView,
    now: u64,
)
    requires
        event is Begin || (fam.pending && fam.inflight && fam.dlq && event->pending.failure is None
            && event->inflight.failure is None && event->dlq.failure is None),
    ensures
        policy.backlog_quota is None ==> admission::admission(
            tenant,
            queue,
            policy,
            incoming,
            fam,
            event,
            now,
        ) == Ok::<AdmissionView, Fault>(AdmissionView::Write { evict: None }),
        policy.backlog_quota is Some && event is Begin ==> admission::admission(
            tenant,
            queue,
            policy,
            incoming,
            fam,
            event,
            now,
        ) == Ok::<AdmissionView, Fault>(AdmissionView::Measure { pause_ms: 0, deadline: None }),
{
}

/// Tasks that fit are written, whatever the policy would do with those that do not,
/// and nothing is evicted for them; a producer that may wait is first given its
/// deadline.
pub proof fn law_tasks_that_fit_are_written(
    tenant: Seq<char>,
    queue: Seq<char>,
    policy: PolicyView,
    incoming: usize,
    fam: Families,
    waiting: Seq<RecordView>,
    leased: Seq<RecordView>,
    dead: Seq<RecordView>,
    deadline: Option<u64>,
    now: u64,
)
    requires
        fam.pending && fam.inflight && fam.dlq,
        policy.backlog_quota is Some,
        waiting.len() + leased.len() + incoming <= policy.backlog_quota->0,
        policy.backlog_policy is Block ==> deadline is Some,
    ensures
        admission::admission(
            tenant,
            queue,
            policy,
            incoming,
            fam,
            measured(waiting, leased, dead, deadline),
            now,
        ) == Ok::<AdmissionView, Fault>(AdmissionView::Write { evict: None }),
{
}

/// A producer that may wait for room is given the whole timeout at its first look,
/// waits while there is none, and is refused with the numbers once the time is over.
pub proof fn law_producer_waits_for_room(
    tenant: Seq<char>,
    queue: Seq<char>,
    policy: PolicyView,
    timeout_ms: u64,
    incoming: usize,
    fam: Families,
    waiting: Seq<RecordView>,
    leased: Seq<RecordView>,
    dead: Seq<RecordView>,
    end: u64,
    now: u64,
)
    requires
        fam.pending && fam.inflight && fam.dlq,
        policy.backlog_quota is Some,
        policy.backlog_policy == (BacklogPolicy::Block { timeout_ms }),
        waiting.len() + leased.len() + incoming > policy.backlog_quota->0,
        waiting.len() + leased.len() + incoming <= usize::MAX,
        now + timeout_ms <= u64::MAX,
    ensures
        ({
            let first = admission::admission(
                tenant,
                queue,
                policy,
                incoming,
                fam,
                measured(waiting, leased, dead, None),
                now,
            );
            first matches Ok(AdmissionView::Measure { pause_ms, deadline: Some(until) })
                && pause_ms == 0 && until == now + timeout_ms
        }),
        ({
            let later = admission::admission(
                tenant,
                queue,
                policy,
                incoming,
                fam,
                measured(waiting, leased, dead, Some(end)),
                now,
            );
            &&& now < end ==> (later matches Ok(AdmissionView::Measure { pause_ms, deadline })
                && pause_ms == 50 && deadline == Some(end))
            &&& now >= end ==> later == Err::<AdmissionView, Fault>(
                Fault::BacklogQuotaExceeded {
                    tenant,
                    queue,
                    current: (waiting.len() + leased.len()) as usize,
                    quota: policy.backlog_quota->0,
                    incoming,
                },
            )
        }),
{
}

/// Where the oldest make room, they are as many as are too many, taken from the front
/// of the queue, and all that wait where that is not enough.
pub proof fn law_oldest_make_room(
    tenant: Seq<char>,
    queue: Seq<char>,
    policy: PolicyView,
    incoming: usize,
    fam: Families,
    waiting: Seq<RecordView>,
    leased: Seq<RecordView>,
    dead: Seq<RecordView>,
    deadline: Option<u64>,
    now: u64,
)
    requires
        fam.pending && fam.inflight && fam.dlq,
        policy.backlog_quota is Some,
        policy.backlog_policy == BacklogPolicy::EvictOldest,
        waiting.len() + leased.len() + incoming <= usize::MAX,
        waiting.len() + leased.len() + incoming > policy.backlog_quota->0,
    ensures
        ({
            let over = waiting.len() + leased.len() + incoming - policy.backlog_quota->0;
            let next = admission::admission(
                tenant,
                queue,
                policy,
                incoming,
                fam,
                measured(waiting, leased, dead, deadline),
                now,
            );
            &&& next is Ok
            &&& next->Ok_0 is Write
            &&& waiting.len() == 0 ==> next->Ok_0->evict is None
            &&& waiting.len() > 0 ==> {
                let ops = next->Ok_0->evict->0.ops;
                &&& next->Ok_0->evict is Some
                &&& over <= waiting.len() ==> ops.len() == over
                &&& over > waiting.len() ==> ops.len() == waiting.len()
                &&& forall|i: int|
                    0 <= i < ops.len() ==> ((#[trigger] ops[i]) matches OpView::Delete { cf, key }
                        && cf == tenant + "__pending"@ && key == waiting[i].key)
            }
        }),
{
}

/// Once tasks are admitted they are added: an enqueue whose admission says so gives
/// the writes, one that must wait or is refused leaves the registry as it was.
pub proof fn law_enqueue_follows_admission(
    before: RegistryView,
    after: RegistryView,
    tenant: Seq<char>,
    queue: Seq<char>,
    payloads: Seq<Seq<u8>>,
    policy: PolicyView,
    fam: Families,
    event: EventView,
    now: u64,
    r: Result<EnqueueStep, QueueError>,
)
    requires
        payloads.len() <= usize::MAX,
        admission::enqueue_result(
            before,
            after,
            tenant,
            queue,
            payloads,
            policy,
            fam,
            event,
            now,
            r,
        ),
    ensures
        ({
            let next = admission::admission(
                tenant,
                queue,
                policy,
                payloads.len() as usize,
                fam,
                event,
                now,
            );
            &&& next is Err ==> r is Err && r->Err_0@ == next->Err_0 && after == before
            &&& next matches Ok(AdmissionView::Measure { pause_ms, deadline }) ==> after == before && (
            r matches Ok(EnqueueStep::Measure { pause_ms: p, deadline: d }) && p == pause_ms && d
                == deadline)
            &&& next matches Ok(AdmissionView::Write { evict }) ==> {
                &&& fam.pending ==> (r matches Ok(EnqueueStep::Write { evict: e, added })
                    && store::batch_view(e) == evict && added.ids@.len() == payloads.len()
                    && added.batch@.ops == enqueue::enqueue_ops(
                    tenant,
                    queue,
                    added.ids@.map_values(|s: String| s@),
                    payloads,
                    before.seq,
                    now,
                ))
                &&& !fam.pending ==> r is Err && r->Err_0@ == Fault::ColumnFamilyMissing(
                    tenant + "__pending"@,
                ) && after == before
            }
        }),
{
}

/// Why a request for tasks fails: nothing can be wrong with one for no tasks; the
/// families must be there, in the order in which tasks pass through them; and the store
/// must not fail before there are enough tasks.
pub proof fn law_dequeue_fails(l: Lease, fam: Families, limit: nat, scan: ScanView)
    ensures
        ({
            let r = dequeue::dequeued(l, fam, limit, scan);
            let none = Err::<DequeuedView, Fault>(
                Fault::ColumnFamilyMissing(
                    l.tenant + (if !fam.pending {
                        "__pending"@
                    } else if !fam.inflight {
                        "__inflight"@
                    } else {
                        "__dlq"@
                    }),
                ),
            );
            &&& limit == 0 ==> (r matches Ok(d) && d.tasks.len() == 0 && d.batch is None)
            &&& limit > 0 && !(fam.pending && fam.inflight && fam.dlq) ==> r == none
            &&& limit > 0 && fam.pending && fam.inflight && fam.dlq && scan.records.len() < limit ==> (
            scan.failure matches Some(why) ==> r == Err::<DequeuedView, Fault>(Fault::Store(why)))
            &&& fam.pending && fam.inflight && fam.dlq && (scan.failure is None
                || scan.records.len() >= limit) ==> r is Ok
        }),
{
}

/// Why a request within a bound on leases fails: nothing can be wrong where no leases
/// are allowed; the leases must be countable; and what is within the bound must succeed.
pub proof fn law_bounded_dequeue_fails(
    l: Lease,
    fam: Families,
    limit: nat,
    max_inflight: nat,
    leased: ScanView,
    scan: ScanView,
)
    ensures
        ({
            let r = dequeue::dequeued_within(l, fam, limit, max_inflight, leased, scan);
            &&& max_inflight == 0 ==> (r matches Ok(d) && d.tasks.len() == 0 && d.batch is None)
            &&& max_inflight > 0 && !fam.inflight ==> r == Err::<DequeuedView, Fault>(
                Fault::ColumnFamilyMissing(l.tenant + "__inflight"@),
            )
            &&& max_inflight > 0 && fam.inflight ==> (leased.failure matches Some(why) ==> r == Err::<
                DequeuedView,
                Fault,
            >(Fault::Store(why)))
            &&& max_inflight > 0 && fam.inflight && leased.failure is None && leased.records.len()
                >= max_inflight ==> r == dequeue::dequeued(l, fam, 0, scan)
            &&& fam.inflight && leased.failure is None && leased.records.len() < max_inflight
                && leased.records.len() + limit <= max_inflight ==> r == dequeue::dequeued(
                l,
                fam,
                limit,
                scan,
            )
            &&& fam.inflight && leased.failure is None && leased.records.len() < max_inflight
                && leased.records.len() + limit > max_inflight ==> r == dequeue::dequeued(
                l,
                fam,
                (max_inflight - leased.records.len()) as nat,
                scan,
            )
        }),
{
}

/// Why leasing in place fails: nothing can be wrong with a request for no tasks; the two
/// families must be there; an entry that is no task fails it; and the store must not
/// fail before there are enough tasks.
pub proof fn law_lease_in_place_refused(
    l: Lease,
    fam: Families,
    limit: nat,
    cs: Seq<CandidateView>,
    failure: Option<Seq<char>>,
)
    ensures
        ({
            let r = dequeue::lease_outcome(l, fam, limit, cs, failure);
            let inner = dequeue::leased_in_place(l, limit, cs);
            &&& limit == 0 ==> (r matches Ok(d) && d.tasks.len() == 0 && d.batch is None)
            &&& limit > 0 && !fam.pending ==> r == Err::<DequeuedView, Fault>(
                Fault::ColumnFamilyMissing(l.tenant + "__pending"@),
            )
            &&& limit > 0 && fam.pending && !fam.inflight ==> r == Err::<DequeuedView, Fault>(
                Fault::ColumnFamilyMissing(l.tenant + "__inflight"@),
            )
            &&& limit > 0 && fam.pending && fam.inflight ==> (inner matches Err(e) ==> r == Err::<
                DequeuedView,
                Fault,
            >(e))
            &&& limit > 0 && fam.pending && fam.inflight ==> (inner matches Ok(ts) ==> {
                &&& ts.len() < limit ==> (failure matches Some(why) ==> r == Err::<
                    DequeuedView,
                    Fault,
                >(Fault::Store(why)))
                &&& ts.len() >= limit || failure is None ==> (r matches Ok(d) && d.tasks == ts)
            })
        }),
{
}

/// What cannot be measured is not admitted: the fault of the measurement is the answer.
pub proof fn law_unmeasured_is_refused(
    tenant: Seq<char>,
    queue: Seq<char>,
    policy: PolicyView,
    incoming: usize,
    fam: Families,
    pending: ScanView,
    inflight: ScanView,
    dlq: ScanView,
    deadline: Option<u64>,
    now: u64,
)
    ensures
        quota::depths(tenant, fam, pending, inflight, dlq) matches Err(f)
            ==> admission::admission(
            tenant,
            queue,
            policy,
            incoming,
            fam,
            (EventView::Measured { pending, inflight, dlq, deadline }),
            now,
        ) == Err::<AdmissionView, Fault>(f),
{
}

} // verus!
