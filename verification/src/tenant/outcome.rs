//! How leased tasks and dead letters end.

use vstd::prelude::*;

use crate::error::Fault;
use crate::keys;
use crate::reaper;
use crate::store;
use crate::store::{BatchView, OpView, RecordView, ScanView, Store};
use crate::task;
use crate::task::TaskView;
use crate::tenant;
use crate::tenant::dequeue;
use crate::tenant::dlq;
use crate::tenant::enqueue;
use crate::tenant::isolation;
use crate::tenant::quota;
use crate::tenant::settle;
use crate::tenant::Families;
use crate::text;

verus! {

/// The changes of an acknowledgement.
pub open spec fn ack_ops(tenant: Seq<char>, key: Seq<u8>) -> Seq<OpView> {
    seq![OpView::Delete { cf: tenant::inflight_name(tenant), key }]
}

/// An acknowledged task is gone, and nothing else has changed.
pub proof fn law_ack_removes(
    s: Store,
    tenant: Seq<char>,
    key: Seq<u8>,
    cf: Seq<char>,
    other: Seq<u8>,
)
    ensures
        store::look(
            store::apply(s, ack_ops(tenant, key)),
            tenant::inflight_name(tenant),
            key,
        ) is None,
        cf != tenant::inflight_name(tenant) || other != key ==> store::look(
            store::apply(s, ack_ops(tenant, key)),
            cf,
            other,
        ) == store::look(s, cf, other),
{
    let ops = ack_ops(tenant, key);
    store::lemma_last_touch(s, ops, tenant::inflight_name(tenant), key, 0);
    if cf != tenant::inflight_name(tenant) || other != key {
        store::lemma_untouched(s, ops, cf, other);
    }
}

/// Acknowledging twice is the same as acknowledging once.
pub proof fn law_ack_idempotent(s: Store, tenant: Seq<char>, key: Seq<u8>)
    ensures
        store::apply(store::apply(s, ack_ops(tenant, key)), ack_ops(tenant, key))
            =~= store::apply(s, ack_ops(tenant, key)),
{
    let ops = ack_ops(tenant, key);
    let cf = tenant::inflight_name(tenant);
    assert(ops.drop_last() =~= Seq::<OpView>::empty());
    reveal_with_fuel(store::apply, 2);
    let once = store::apply(s, ops);
    let twice = store::apply(once, ops);
    assert(once == s.insert(cf, s[cf].remove(key)));
    assert(twice == once.insert(cf, once[cf].remove(key)));
    assert(once[cf].remove(key) =~= once[cf]);
    assert(twice =~= once);
}

/// Acknowledging several tasks removes each of them and no other leased task.
pub proof fn law_ack_batch_removes(
    s: Store,
    tenant: Seq<char>,
    ks: Seq<Seq<u8>>,
    key: Seq<u8>,
)
    ensures
        store::look(
            store::apply(s, settle::forget_ops(tenant::inflight_name(tenant), ks)),
            tenant::inflight_name(tenant),
            key,
        ) == (if ks.contains(key) {
            None
        } else {
            store::look(s, tenant::inflight_name(tenant), key)
        }),
{
    lemma_forget(s, tenant::inflight_name(tenant), ks, key);
}

/// Removed keys are gone, the others stay.
proof fn lemma_forget(s: Store, cf: Seq<char>, ks: Seq<Seq<u8>>, key: Seq<u8>)
    ensures
        store::look(store::apply(s, settle::forget_ops(cf, ks)), cf, key) == (if ks.contains(
            key,
        ) {
            None
        } else {
            store::look(s, cf, key)
        }),
    decreases ks.len(),
{
    let ops = settle::forget_ops(cf, ks);
    if ks.len() == 0 {
        assert(!ks.contains(key));
    } else {
        let rest = ks.drop_last();
        lemma_forget(s, cf, rest, key);
        assert(ops.drop_last() =~= settle::forget_ops(cf, rest));
        assert(ops.last() == (OpView::Delete { cf, key: ks.last() }));
        if ks.contains(key) && key != ks.last() {
            let i = choose|i: int| 0 <= i < ks.len() && ks[i] == key;
            assert(rest[i] == key);
        }
        if rest.contains(key) {
            let i = choose|i: int| 0 <= i < rest.len() && rest[i] == key;
            assert(ks[i] == key);
        }
        assert(ks[ks.len() - 1] == ks.last());
    }
}

/// A task that is given back leaves the leased ones, and is found again: at the
/// end of its queue, unchanged but for its lease, while it has attempts left;
/// as it is among the dead letters once they are used up.
pub proof fn law_nack_keeps_task(
    s: Store,
    tenant: Seq<char>,
    key: Seq<u8>,
    value: Seq<u8>,
    seq: u64,
    now: u64,
)
    requires
        value.len() <= u64::MAX,
    ensures
        ({
            let t = store::apply(s, settle::nack_ops(tenant, key, value, seq, now));
            &&& store::look(t, tenant::inflight_name(tenant), key) is None
            &&& match task::read_task(value) {
                None => store::look(t, tenant::dlq_name(tenant), key) == Some(
                    task::task_code(task::poison_view(settle::key_queue(key), value, now)),
                ),
                Some(found) => if found.attempts >= settle::MAX_ATTEMPTS {
                    store::look(t, tenant::dlq_name(tenant), key) == Some(value)
                } else {
                    let back = store::look(
                        t,
                        tenant::pending_name(tenant),
                        task::key_code(found.queue, seq),
                    );
                    back is Some && task::read_task(back->0) == Some(settle::unleased(found))
                },
            }
        }),
{
    let ops = settle::nack_ops(tenant, key, value, seq, now);
    isolation::law_families_distinct(tenant, tenant);
    store::lemma_last_touch(s, ops, tenant::inflight_name(tenant), key, 0);
    match task::read_task(value) {
        None => {
            store::lemma_last_touch(s, ops, tenant::dlq_name(tenant), key, 1);
        },
        Some(found) => {
            if found.attempts >= settle::MAX_ATTEMPTS {
                store::lemma_last_touch(s, ops, tenant::dlq_name(tenant), key, 1);
            } else {
                store::lemma_last_touch(
                    s,
                    ops,
                    tenant::pending_name(tenant),
                    task::key_code(found.queue, seq),
                    1,
                );
                task::lemma_read_task_fits(value);
                task::law_task_stored(settle::unleased(found));
            }
        },
    }
}

/// A task after it was handed out and given back so many times.
pub open spec fn after_rounds(t: TaskView, deadline: u64, rounds: nat) -> TaskView
    decreases rounds,
{
    if rounds == 0 {
        t
    } else {
        settle::unleased(
            dequeue::leased_task(after_rounds(t, deadline, (rounds - 1) as nat), deadline),
        )
    }
}

/// A new task is given another chance four times; when it is given back for the
/// fifth time it goes to the dead letters.
pub proof fn law_fifth_failure_is_final(t: TaskView, deadline: u64, rounds: nat)
    requires
        t.fits(),
        t.attempts == 0,
        rounds <= 4,
    ensures
        ({
            let leased = dequeue::leased_task(after_rounds(t, deadline, rounds), deadline);
            &&& leased.attempts == rounds + 1
            &&& settle::retries(task::task_code(leased)) <==> rounds < 4
        }),
{
    lemma_rounds(t, deadline, rounds);
    task::law_task_stored(dequeue::leased_task(after_rounds(t, deadline, rounds), deadline));
}

/// Rounds count attempts up and change nothing else of an unleased task.
proof fn lemma_rounds(t: TaskView, deadline: u64, rounds: nat)
    requires
        t.attempts + rounds <= u32::MAX,
        t.fits(),
    ensures
        after_rounds(t, deadline, rounds).attempts == t.attempts + rounds,
        after_rounds(t, deadline, rounds).id == t.id,
        after_rounds(t, deadline, rounds).queue == t.queue,
        after_rounds(t, deadline, rounds).payload == t.payload,
        after_rounds(t, deadline, rounds).fits(),
    decreases rounds,
{
    if rounds > 0 {
        lemma_rounds(t, deadline, (rounds - 1) as nat);
    }
}

/// The removal of records is the removal of their keys.
proof fn lemma_delete_ops(cf: Seq<char>, rs: Seq<RecordView>)
    ensures
        quota::delete_ops(cf, rs) == settle::forget_ops(
            cf,
            rs.map_values(|r: RecordView| r.key),
        ),
{
    assert(quota::delete_ops(cf, rs) =~= settle::forget_ops(
        cf,
        rs.map_values(|r: RecordView| r.key),
    ));
}

/// Purging the dead letters leaves none.
pub proof fn law_purge_empties(s: Store, tenant: Seq<char>, rs: Seq<RecordView>, key: Seq<u8>)
    requires
        store::is_scan(s[tenant::dlq_name(tenant)], Seq::empty(), rs),
    ensures
        store::look(
            store::apply(s, quota::delete_ops(tenant::dlq_name(tenant), rs)),
            tenant::dlq_name(tenant),
            key,
        ) is None,
{
    let cf = tenant::dlq_name(tenant);
    let ks = rs.map_values(|r: RecordView| r.key);
    lemma_delete_ops(cf, rs);
    lemma_forget(s, cf, ks, key);
    if !ks.contains(key) && s[cf].contains_key(key) {
        assert(Seq::<u8>::empty() =~= key.subrange(0, 0));
        assert(store::has_key(rs, key));
        let i = choose|i: int| 0 <= i < rs.len() && (#[trigger] rs[i]).key == key;
        assert(ks[i] == key);
    }
}

/// Eviction removes exactly the oldest waiting records: what is left is the
/// rest of the queue.
pub proof fn law_evicts_oldest(
    s: Store,
    tenant: Seq<char>,
    prefix: Seq<u8>,
    rs: Seq<RecordView>,
    n: int,
)
    requires
        store::is_scan(s[tenant::pending_name(tenant)], prefix, rs),
        0 <= n <= rs.len(),
    ensures
        store::is_scan(
            store::apply(
                s,
                quota::delete_ops(tenant::pending_name(tenant), rs.take(n)),
            )[tenant::pending_name(tenant)],
            prefix,
            rs.skip(n),
        ),
{
    let cf = tenant::pending_name(tenant);
    let gone = rs.take(n);
    let left = rs.skip(n);
    let ops = quota::delete_ops(cf, gone);
    let ks = gone.map_values(|r: RecordView| r.key);
    let after = store::apply(s, ops);
    lemma_delete_ops(cf, gone);
    assert forall|k: Seq<u8>| #[trigger] store::look(after, cf, k) == (if ks.contains(k) {
        None
    } else {
        store::look(s, cf, k)
    }) by {
        lemma_forget(s, cf, ks, k);
    }
    assert forall|i: int, j: int| 0 <= i < j < left.len() implies keys::key_lt(
        #[trigger] left[i].key,
        #[trigger] left[j].key,
    ) by {
        assert(left[i] == rs[n + i] && left[j] == rs[n + j]);
    }
    assert forall|i: int| 0 <= i < left.len() implies !ks.contains((#[trigger] left[i]).key) by {
        assert(left[i] == rs[n + i]);
        if ks.contains(left[i].key) {
            let j = choose|j: int| 0 <= j < ks.len() && ks[j] == left[i].key;
            assert(ks[j] == rs[j].key);
            store::lemma_ascending_distinct(rs, j, n + i);
        }
    }
    assert forall|i: int| 0 <= i < left.len() implies after[cf].contains_key(
        (#[trigger] left[i]).key,
    ) && after[cf][left[i].key] == left[i].value && prefix.is_prefix_of(left[i].key) by {
        assert(left[i] == rs[n + i]);
        assert(store::look(after, cf, left[i].key) == store::look(s, cf, left[i].key));
    }
    assert forall|k: Seq<u8>| #[trigger]
        after[cf].contains_key(k) && prefix.is_prefix_of(k) implies store::has_key(left, k) by {
        assert(store::look(after, cf, k) is Some);
        assert(s[cf].contains_key(k));
        let i = choose|i: int| 0 <= i < rs.len() && (#[trigger] rs[i]).key == k;
        if i < n {
            assert(ks[i] == k);
        } else {
            assert(left[i - n].key == k);
        }
    }
}

/// The two changes for each dead letter stand side by side.
proof fn lemma_replay_at(tenant: Seq<char>, first: u64, rs: Seq<RecordView>)
    ensures
        dlq::replay_ops(tenant, first, rs).len() == 2 * rs.len(),
        forall|i: int|
            0 <= i < rs.len() ==> dlq::replay_ops(tenant, first, rs)[2 * i] == dlq::replay_op(
                tenant,
                #[trigger] rs[i],
                enqueue::nth_seq(first, i),
            )[0] && dlq::replay_ops(tenant, first, rs)[2 * i + 1] == dlq::replay_op(
                tenant,
                rs[i],
                enqueue::nth_seq(first, i),
            )[1],
    decreases rs.len(),
{
    if rs.len() > 0 {
        let rest = rs.drop_last();
        lemma_replay_at(tenant, first, rest);
        let ops = dlq::replay_ops(tenant, first, rs);
        assert forall|i: int| 0 <= i < rs.len() implies ops[2 * i] == dlq::replay_op(
            tenant,
            #[trigger] rs[i],
            enqueue::nth_seq(first, i),
        )[0] && ops[2 * i + 1] == dlq::replay_op(tenant, rs[i], enqueue::nth_seq(first, i))[1] by {
            if i < rest.len() {
                assert(rest[i] == rs[i]);
            }
        }
    }
}

/// Keys with different numbers differ, whatever their queues.
pub proof fn lemma_numbers_differ(a: Seq<char>, x: u64, b: Seq<char>, y: u64)
    requires
        x != y,
    ensures
        task::key_code(a, x) != task::key_code(b, y),
{
    task::law_key_seq_roundtrip(a, x);
    task::law_key_seq_roundtrip(b, y);
}

/// The number of a later dead letter is another one.
proof fn lemma_replay_numbers(first: u64, n: int, i: int, m: int)
    requires
        first + n <= u64::MAX + 1,
        0 <= i < m < n,
    ensures
        enqueue::nth_seq(first, i) != enqueue::nth_seq(first, m),
{
    assert(enqueue::nth_seq(first, i) == first + i);
    assert(enqueue::nth_seq(first, m) == first + m);
}

/// A replayed dead letter waits under its new key.
proof fn lemma_replay_arrives(
    s: Store,
    tenant: Seq<char>,
    first: u64,
    rs: Seq<RecordView>,
    i: int,
)
    requires
        first + rs.len() <= u64::MAX + 1,
        0 <= i < rs.len(),
    ensures
        ({
            let found = task::read_task(rs[i].value)->0;
            store::look(
                store::apply(s, dlq::replay_ops(tenant, first, rs)),
                tenant::pending_name(tenant),
                task::key_code(found.queue, enqueue::nth_seq(first, i)),
            ) == Some(task::task_code(dlq::renewed(found)))
        }),
{
    let ops = dlq::replay_ops(tenant, first, rs);
    lemma_replay_at(tenant, first, rs);
    isolation::law_families_distinct(tenant, tenant);
    let found = task::read_task(rs[i].value)->0;
    let key = task::key_code(found.queue, enqueue::nth_seq(first, i));
    let pending = tenant::pending_name(tenant);
    assert(rs[i] == rs[i]);
    assert forall|j: int| 2 * i < j < ops.len() implies !store::touches(
        #[trigger] ops[j],
        pending,
        key,
    ) by {
        let m = j / 2;
        assert(rs[m] == rs[m]);
        assert(j == 2 * m || j == 2 * m + 1);
        if j == 2 * m {
            lemma_replay_numbers(first, rs.len() as int, i, m);
            lemma_numbers_differ(
                found.queue,
                enqueue::nth_seq(first, i),
                (task::read_task(rs[m].value)->0).queue,
                enqueue::nth_seq(first, m),
            );
        }
    }
    store::lemma_last_touch(s, ops, pending, key, 2 * i);
}

/// A replayed dead letter is no dead letter any more.
proof fn lemma_replay_leaves(
    s: Store,
    tenant: Seq<char>,
    first: u64,
    rs: Seq<RecordView>,
    i: int,
)
    requires
        store::ascending(rs),
        0 <= i < rs.len(),
    ensures
        store::look(
            store::apply(s, dlq::replay_ops(tenant, first, rs)),
            tenant::dlq_name(tenant),
            rs[i].key,
        ) is None,
{
    let ops = dlq::replay_ops(tenant, first, rs);
    lemma_replay_at(tenant, first, rs);
    isolation::law_families_distinct(tenant, tenant);
    let dead = tenant::dlq_name(tenant);
    assert(rs[i] == rs[i]);
    assert forall|j: int| 2 * i + 1 < j < ops.len() implies !store::touches(
        #[trigger] ops[j],
        dead,
        rs[i].key,
    ) by {
        let m = j / 2;
        assert(rs[m] == rs[m]);
        assert(j == 2 * m || j == 2 * m + 1);
        if j == 2 * m + 1 {
            store::lemma_ascending_distinct(rs, i, m);
        }
    }
    store::lemma_last_touch(s, ops, dead, rs[i].key, 2 * i + 1);
}

/// Replaying loses no dead letter: each leaves the dead letters and waits again
/// with its attempts reset.
pub proof fn law_replay_moves(s: Store, tenant: Seq<char>, first: u64, rs: Seq<RecordView>, i: int)
    requires
        store::ascending(rs),
        dlq::leading_tasks(rs) == rs.len(),
        forall|j: int| 0 <= j < rs.len() ==> (#[trigger] rs[j]).value.len() <= u64::MAX,
        first + rs.len() <= u64::MAX + 1,
        0 <= i < rs.len(),
    ensures
        ({
            let t = store::apply(s, dlq::replay_ops(tenant, first, rs));
            let found = task::read_task(rs[i].value)->0;
            let back = store::look(
                t,
                tenant::pending_name(tenant),
                task::key_code(found.queue, enqueue::nth_seq(first, i)),
            );
            &&& store::look(t, tenant::dlq_name(tenant), rs[i].key) is None
            &&& back is Some
            &&& task::read_task(back->0) == Some(dlq::renewed(found))
        }),
{
    lemma_all_tasks(rs, i);
    let found = task::read_task(rs[i].value)->0;
    lemma_replay_arrives(s, tenant, first, rs, i);
    lemma_replay_leaves(s, tenant, first, rs, i);
    task::lemma_read_task_fits(rs[i].value);
    task::law_task_stored(dlq::renewed(found));
}

/// Where all records lead, all are tasks.
proof fn lemma_all_tasks(rs: Seq<RecordView>, i: int)
    requires
        dlq::leading_tasks(rs) == rs.len(),
        0 <= i < rs.len(),
    ensures
        task::read_task(rs[i].value) is Some,
    decreases rs.len(),
{
    if i > 0 {
        lemma_leading_tasks_bound(rs.drop_first());
        lemma_all_tasks(rs.drop_first(), i - 1);
    }
}

/// No more records lead than there are.
proof fn lemma_leading_tasks_bound(rs: Seq<RecordView>)
    ensures
        dlq::leading_tasks(rs) <= rs.len(),
    decreases rs.len(),
{
    if rs.len() > 0 {
        lemma_leading_tasks_bound(rs.drop_first());
    }
}

/// A replay leaves no dead letter.
pub proof fn law_replay_empties(
    s: Store,
    tenant: Seq<char>,
    first: u64,
    rs: Seq<RecordView>,
    key: Seq<u8>,
)
    requires
        store::is_scan(s[tenant::dlq_name(tenant)], Seq::empty(), rs),
        dlq::leading_tasks(rs) == rs.len(),
    ensures
        store::look(
            store::apply(s, dlq::replay_ops(tenant, first, rs)),
            tenant::dlq_name(tenant),
            key,
        ) is None,
{
    let ops = dlq::replay_ops(tenant, first, rs);
    let dead = tenant::dlq_name(tenant);
    lemma_replay_at(tenant, first, rs);
    isolation::law_families_distinct(tenant, tenant);
    if store::has_key(rs, key) {
        let i = choose|i: int| 0 <= i < rs.len() && (#[trigger] rs[i]).key == key;
        assert forall|j: int| 2 * i + 1 < j < ops.len() implies !store::touches(
            #[trigger] ops[j],
            dead,
            key,
        ) by {
            let m = j / 2;
            assert(rs[m] == rs[m]);
            assert(j == 2 * m || j == 2 * m + 1);
            if j == 2 * m + 1 {
                store::lemma_ascending_distinct(rs, i, m);
            }
        }
        store::lemma_last_touch(s, ops, dead, key, 2 * i + 1);
    } else {
        assert(Seq::<u8>::empty() =~= key.subrange(0, 0));
        assert(!s[dead].contains_key(key));
        assert forall|j: int| 0 <= j < ops.len() implies !store::touches(
            #[trigger] ops[j],
            dead,
            key,
        ) by {
            let m = j / 2;
            assert(rs[m] == rs[m]);
            assert(j == 2 * m || j == 2 * m + 1);
        }
        store::lemma_untouched(s, ops, dead, key);
    }
}

/// Every record carries a number of the queue.
pub open spec fn numbered_in(rs: Seq<RecordView>, queue: Seq<char>) -> bool {
    forall|i: int| 0 <= i < rs.len() ==> is_key_in((#[trigger] rs[i]).key, queue)
}

/// The key is that of some number in the queue.
pub open spec fn is_key_in(key: Seq<u8>, queue: Seq<char>) -> bool {
    exists|n: u64| key == #[trigger] task::key_code(queue, n)
}

/// A cumulative acknowledgement reaches exactly the leased tasks whose numbers
/// are at most the given one.
pub proof fn law_cumulative_ack_exact(
    s: Store,
    tenant: Seq<char>,
    queue: Seq<char>,
    rs: Seq<RecordView>,
    up_to: u64,
    n: u64,
)
    requires
        store::is_scan(s[tenant::inflight_name(tenant)], task::prefix_code(queue), rs),
        numbered_in(rs, queue),
    ensures
        ({
            let cf = tenant::inflight_name(tenant);
            let ks = settle::numbered(rs.take(settle::reach(rs, up_to) as int));
            let t = store::apply(s, settle::forget_ops(cf, ks));
            let key = task::key_code(queue, n);
            store::look(t, cf, key) == (if n <= up_to {
                None
            } else {
                store::look(s, cf, key)
            })
        }),
{
    let cf = tenant::inflight_name(tenant);
    let m = settle::reach(rs, up_to) as int;
    let ks = settle::numbered(rs.take(m));
    let key = task::key_code(queue, n);
    lemma_forget(s, cf, ks, key);
    lemma_reach_bound(rs, up_to);
    lemma_numbered_keys(rs.take(m));
    task::law_key_seq_roundtrip(queue, n);
    if n <= up_to {
        if s[cf].contains_key(key) {
            task::law_key_prefix(queue, n);
            assert(store::has_key(rs, key));
            let i = choose|i: int| 0 <= i < rs.len() && (#[trigger] rs[i]).key == key;
            if i >= m {
                assert(is_key_in(rs[m].key, queue));
                let b = choose|b: u64| rs[m].key == #[trigger] task::key_code(queue, b);
                task::law_key_seq_roundtrip(queue, b);
                assert(settle::beyond(rs[m].key, up_to));
                if i > m {
                    assert(keys::key_lt(rs[m].key, rs[i].key));
                    task::law_key_order(queue, b, n);
                }
                assert(false);
            }
            assert(rs.take(m)[i].key == key);
            assert(ks.contains(key));
        }
    } else if ks.contains(key) {
        let j = choose|j: int| 0 <= j < ks.len() && ks[j] == key;
        assert(ks.contains(ks[j]));
        let i = choose|i: int| 0 <= i < rs.take(m).len() && (#[trigger] rs.take(m)[i]).key == key;
        assert(rs.take(m)[i] == rs[i]);
        assert(settle::beyond(rs[i].key, up_to));
        assert(false);
    }
}

/// The keys that hold a number are those of the records.
proof fn lemma_numbered_keys(rs: Seq<RecordView>)
    ensures
        forall|k: Seq<u8>| #[trigger]
            settle::numbered(rs).contains(k) <==> store::has_key(rs, k) && task::key_seq(
                k,
            ) is Some,
    decreases rs.len(),
{
    if rs.len() > 0 {
        let rest = rs.drop_last();
        lemma_numbered_keys(rest);
        let ks = settle::numbered(rs);
        let before = settle::numbered(rest);
        assert forall|k: Seq<u8>| #[trigger] ks.contains(k) <==> store::has_key(rs, k)
            && task::key_seq(k) is Some by {
            if ks.contains(k) {
                let j = choose|j: int| 0 <= j < ks.len() && ks[j] == k;
                if j < before.len() {
                    assert(before[j] == k);
                    assert(before.contains(k));
                    let i = choose|i: int| 0 <= i < rest.len() && (#[trigger] rest[i]).key == k;
                    assert(rs[i].key == k);
                } else {
                    assert(rs[rs.len() - 1].key == k);
                }
            }
            if store::has_key(rs, k) && task::key_seq(k) is Some {
                let i = choose|i: int| 0 <= i < rs.len() && (#[trigger] rs[i]).key == k;
                if i < rest.len() {
                    assert(rest[i].key == k);
                    assert(before.contains(k));
                    let j = choose|j: int| 0 <= j < before.len() && before[j] == k;
                    assert(ks[j] == k);
                } else {
                    assert(ks[ks.len() - 1] == k);
                }
            }
        }
    }
}

/// Before the reach no number is beyond, and the one at it is.
proof fn lemma_reach_bound(rs: Seq<RecordView>, up_to: u64)
    ensures
        settle::reach(rs, up_to) <= rs.len(),
        forall|i: int|
            0 <= i < settle::reach(rs, up_to) ==> !settle::beyond((#[trigger] rs[i]).key, up_to),
        settle::reach(rs, up_to) < rs.len() ==> settle::beyond(
            rs[settle::reach(rs, up_to) as int].key,
            up_to,
        ),
    decreases rs.len(),
{
    if rs.len() > 0 && !settle::beyond(rs[0].key, up_to) {
        let rest = rs.drop_first();
        lemma_reach_bound(rest, up_to);
        assert forall|i: int| 0 <= i < settle::reach(rs, up_to) implies !settle::beyond(
            (#[trigger] rs[i]).key,
            up_to,
        ) by {
            if i > 0 {
                assert(rest[i - 1] == rs[i]);
            }
        }
    }
}

/// A sweep changes only the entries of the records that it looks at.
pub proof fn law_reap_spares(
    s: Store,
    tenant: Seq<char>,
    queue: Seq<char>,
    now: u64,
    rs: Seq<RecordView>,
    cf: Seq<char>,
    key: Seq<u8>,
)
    requires
        !store::has_key(rs, key),
    ensures
        store::look(store::apply(s, reaper::reap_ops(tenant, queue, now, rs)), cf, key)
            == store::look(s, cf, key),
    decreases rs.len(),
{
    if rs.len() > 0 {
        let rest = rs.drop_last();
        let last = reaper::reap_op(tenant, queue, now, rs.last());
        assert(rs[rs.len() - 1].key != key);
        assert forall|i: int| 0 <= i < rest.len() implies (#[trigger] rest[i]).key != key by {
            assert(rest[i] == rs[i]);
        }
        law_reap_spares(s, tenant, queue, now, rest, cf, key);
        let mid = store::apply(s, reaper::reap_ops(tenant, queue, now, rest));
        store::lemma_apply_concat(s, reaper::reap_ops(tenant, queue, now, rest), last);
        store::lemma_untouched(mid, last, cf, key);
    }
}

/// A sweep loses nothing: a task whose lease ran out waits again under its key
/// and is not leased any more, one whose lease runs stays leased, and bytes that
/// are no task are kept among the dead letters.
pub proof fn law_reap_keeps_tasks(
    s: Store,
    tenant: Seq<char>,
    queue: Seq<char>,
    now: u64,
    rs: Seq<RecordView>,
    i: int,
)
    requires
        store::ascending(rs),
        0 <= i < rs.len(),
    ensures
        ({
            let t = store::apply(s, reaper::reap_ops(tenant, queue, now, rs));
            let r = rs[i];
            let leased = store::look(t, tenant::inflight_name(tenant), r.key);
            match task::read_task(r.value) {
                None => leased is None && store::look(t, tenant::dlq_name(tenant), r.key) == Some(
                    task::task_code(task::poison_view(queue, r.value, now)),
                ),
                Some(found) => if reaper::overdue(r.value, now) {
                    leased is None && store::look(t, tenant::pending_name(tenant), r.key) == Some(
                        task::task_code(settle::unleased(found)),
                    )
                } else {
                    leased == store::look(s, tenant::inflight_name(tenant), r.key)
                },
            }
        }),
    decreases rs.len(),
{
    isolation::law_families_distinct(tenant, tenant);
    let rest = rs.drop_last();
    let last = reaper::reap_op(tenant, queue, now, rs.last());
    let ops = reaper::reap_ops(tenant, queue, now, rest);
    let mid = store::apply(s, ops);
    store::lemma_apply_concat(s, ops, last);
    let inflight = tenant::inflight_name(tenant);
    let pending = tenant::pending_name(tenant);
    let dead = tenant::dlq_name(tenant);
    let r = rs[i];
    if i < rest.len() {
        assert(rest[i] == r);
        assert forall|a: int, b: int| 0 <= a < b < rest.len() implies keys::key_lt(
            #[trigger] rest[a].key,
            #[trigger] rest[b].key,
        ) by {
            assert(rest[a] == rs[a] && rest[b] == rs[b]);
        }
        law_reap_keeps_tasks(s, tenant, queue, now, rest, i);
        store::lemma_ascending_distinct(rs, i, rs.len() - 1);
        store::lemma_untouched(mid, last, inflight, r.key);
        store::lemma_untouched(mid, last, pending, r.key);
        store::lemma_untouched(mid, last, dead, r.key);
    } else {
        assert forall|j: int| 0 <= j < rest.len() implies (#[trigger] rest[j]).key != r.key by {
            assert(rest[j] == rs[j]);
            store::lemma_ascending_distinct(rs, j, i);
        }
        law_reap_spares(s, tenant, queue, now, rest, inflight, r.key);
        if task::read_task(r.value) is None {
            store::lemma_last_touch(mid, last, inflight, r.key, 0);
            store::lemma_last_touch(mid, last, dead, r.key, 1);
        } else if reaper::overdue(r.value, now) {
            store::lemma_last_touch(mid, last, inflight, r.key, 0);
            store::lemma_last_touch(mid, last, pending, r.key, 1);
        }
    }
}

/// A task whose lease ran out can be handed out again: the sweep puts it where
/// a dequeue finds it, with the attempts that it had.
pub proof fn law_reaped_is_readable(
    s: Store,
    tenant: Seq<char>,
    queue: Seq<char>,
    now: u64,
    rs: Seq<RecordView>,
    i: int,
)
    requires
        store::ascending(rs),
        0 <= i < rs.len(),
        rs[i].value.len() <= u64::MAX,
        reaper::overdue(rs[i].value, now),
    ensures
        ({
            let t = store::apply(s, reaper::reap_ops(tenant, queue, now, rs));
            let found = store::look(t, tenant::pending_name(tenant), rs[i].key);
            found is Some && task::read_task(found->0) == Some(
                settle::unleased(task::read_task(rs[i].value)->0),
            )
        }),
{
    law_reap_keeps_tasks(s, tenant, queue, now, rs, i);
    task::lemma_read_task_fits(rs[i].value);
    task::law_task_stored(settle::unleased(task::read_task(rs[i].value)->0));
}

/// A task leased in place and acknowledged is gone from both families.
pub proof fn law_lease_ack_removes(s: Store, tenant: Seq<char>, ks: Seq<Seq<u8>>, i: int)
    requires
        0 <= i < ks.len(),
    ensures
        ({
            let t = store::apply(
                s,
                settle::forget_twice_ops(
                    tenant::pending_name(tenant),
                    tenant::inflight_name(tenant),
                    ks,
                ),
            );
            &&& store::look(t, tenant::pending_name(tenant), ks[i]) is None
            &&& store::look(t, tenant::inflight_name(tenant), ks[i]) is None
        }),
    decreases ks.len(),
{
    isolation::law_families_distinct(tenant, tenant);
    let p = tenant::pending_name(tenant);
    let q = tenant::inflight_name(tenant);
    let rest = ks.drop_last();
    let ops = settle::forget_twice_ops(p, q, rest);
    let last = seq![
        OpView::Delete { cf: p, key: ks.last() },
        OpView::Delete { cf: q, key: ks.last() },
    ];
    let mid = store::apply(s, ops);
    store::lemma_apply_concat(s, ops, last);
    if ks[i] == ks.last() {
        store::lemma_last_touch(mid, last, p, ks[i], 0);
        store::lemma_last_touch(mid, last, q, ks[i], 1);
    } else {
        assert(rest[i] == ks[i]);
        law_lease_ack_removes(s, tenant, rest, i);
        store::lemma_untouched(mid, last, p, ks[i]);
        store::lemma_untouched(mid, last, q, ks[i]);
    }
}

/// Giving a task back before its fifth attempt: it waits again, at the end of its
/// queue under the new number, as it was but without a lease, and no dead letter
/// is written.
pub proof fn law_nack_retries(
    s: Store,
    tenant: Seq<char>,
    key: Seq<u8>,
    value: Seq<u8>,
    t: TaskView,
    seq: u64,
    now: u64,
)
    requires
        value.len() <= u64::MAX,
        task::read_task(value) == Some(t),
        t.attempts < 5,
    ensures
        settle::retries(value),
        ({
            let after = store::apply(s, settle::nack_ops(tenant, key, value, seq, now));
            let back = store::look(after, tenant + "__pending"@, task::key_code(t.queue, seq));
            &&& store::look(after, tenant + "__inflight"@, key) is None
            &&& back is Some
            &&& task::read_task(back->0) matches Some(w) && w.id == t.id && w.queue == t.queue
                && w.payload == t.payload && w.enqueued_at == t.enqueued_at && w.attempts
                == t.attempts && w.deadline == 0
            &&& forall|k: Seq<u8>| #[trigger]
                store::look(after, tenant + "__dlq"@, k) == store::look(s, tenant + "__dlq"@, k)
        }),
{
    let ops = settle::nack_ops(tenant, key, value, seq, now);
    law_nack_keeps_task(s, tenant, key, value, seq, now);
    isolation::law_families_distinct(tenant, tenant);
    assert forall|k: Seq<u8>| #[trigger]
        store::look(store::apply(s, ops), tenant + "__dlq"@, k) == store::look(
            s,
            tenant + "__dlq"@,
            k,
        ) by {
        store::lemma_untouched(s, ops, tenant + "__dlq"@, k);
    }
}

/// Giving a task back at its fifth attempt or later: it goes to the dead letters as
/// it is, under its key, and does not wait again.
pub proof fn law_nack_gives_up(
    s: Store,
    tenant: Seq<char>,
    key: Seq<u8>,
    value: Seq<u8>,
    t: TaskView,
    seq: u64,
    now: u64,
)
    requires
        value.len() <= u64::MAX,
        task::read_task(value) == Some(t),
        t.attempts >= 5,
    ensures
        !settle::retries(value),
        ({
            let after = store::apply(s, settle::nack_ops(tenant, key, value, seq, now));
            &&& store::look(after, tenant + "__inflight"@, key) is None
            &&& store::look(after, tenant + "__dlq"@, key) == Some(value)
            &&& forall|k: Seq<u8>| #[trigger]
                store::look(after, tenant + "__pending"@, k) == store::look(
                    s,
                    tenant + "__pending"@,
                    k,
                )
        }),
{
    let ops = settle::nack_ops(tenant, key, value, seq, now);
    law_nack_keeps_task(s, tenant, key, value, seq, now);
    isolation::law_families_distinct(tenant, tenant);
    assert forall|k: Seq<u8>| #[trigger]
        store::look(store::apply(s, ops), tenant + "__pending"@, k) == store::look(
            s,
            tenant + "__pending"@,
            k,
        ) by {
        store::lemma_untouched(s, ops, tenant + "__pending"@, k);
    }
}

/// Giving back bytes that are no task: they are kept among the dead letters, in an
/// envelope that is never tried again and that names the queue of the key.
pub proof fn law_nack_keeps_corrupt_bytes(
    s: Store,
    tenant: Seq<char>,
    queue: Seq<char>,
    n: u64,
    value: Seq<u8>,
    seq: u64,
    now: u64,
)
    requires
        value.len() <= u64::MAX,
        vstd::utf8::encode_utf8(queue).len() <= u64::MAX,
        !vstd::utf8::encode_utf8(queue).contains(0u8),
        task::read_task(value) is None,
    ensures
        !settle::retries(value),
        ({
            let key = task::key_code(queue, n);
            let after = store::apply(s, settle::nack_ops(tenant, key, value, seq, now));
            let kept = store::look(after, tenant + "__dlq"@, key);
            &&& store::look(after, tenant + "__inflight"@, key) is None
            &&& kept is Some
            &&& task::read_task(kept->0) matches Some(w) && w.payload == value && w.queue == queue
                && w.attempts == u32::MAX && w.deadline == 0 && w.enqueued_at == now && w.id
                == "poison"@
            &&& forall|k: Seq<u8>| #[trigger]
                store::look(after, tenant + "__pending"@, k) == store::look(
                    s,
                    tenant + "__pending"@,
                    k,
                )
        }),
{
    let key = task::key_code(queue, n);
    let q = vstd::utf8::encode_utf8(queue);
    let ops = settle::nack_ops(tenant, key, value, seq, now);
    law_nack_keeps_task(s, tenant, key, value, seq, now);
    isolation::law_families_distinct(tenant, tenant);
    assert forall|k: Seq<u8>| #[trigger]
        store::look(store::apply(s, ops), tenant + "__pending"@, k) == store::look(
            s,
            tenant + "__pending"@,
            k,
        ) by {
        store::lemma_untouched(s, ops, tenant + "__pending"@, k);
    }
    keys::lemma_be_len(n as nat, 8);
    assert forall|i: int| 0 <= i < q.len() implies key[i] != 0 by {
        assert(key[i] == q[i]);
        assert(q.contains(q[i]));
    }
    assert(key[q.len() as int] == 0);
    task::lemma_name_len_is(key, q.len() as int);
    assert(key.take(q.len() as int) =~= q);
    text::lemma_text_from(queue);
    law_envelope_stored(queue, value, now);
}

/// An envelope tells the bytes and the queue, looks as if all attempts were used up,
/// and is read back from the store.
pub proof fn law_envelope_stored(queue: Seq<char>, raw: Seq<u8>, now: u64)
    requires
        raw.len() <= u64::MAX,
        vstd::utf8::encode_utf8(queue).len() <= u64::MAX,
    ensures
        task::read_task(task::task_code(task::poison_view(queue, raw, now))) matches Some(w)
            && w.payload == raw && w.queue == queue && w.attempts == u32::MAX && w.deadline == 0
            && w.enqueued_at == now && w.id == "poison"@,
{
    reveal_strlit("poison");
    text::lemma_encode_len("poison"@);
    task::law_task_stored(task::poison_view(queue, raw, now));
}

/// When giving back succeeds: where the families are there. Nothing is written where
/// nothing is leased under the key.
pub proof fn law_nack_succeeds(
    tenant: Seq<char>,
    key: Seq<u8>,
    fam: Families,
    found: Option<Seq<u8>>,
    seq: u64,
    now: u64,
)
    ensures
        ({
            let r = settle::nacked(tenant, key, fam, found, seq, now);
            &&& r is Ok <==> fam.pending && fam.inflight && fam.dlq
            &&& r is Ok ==> (r->Ok_0 is Some <==> found is Some)
            &&& r is Ok && found is Some ==> !r->Ok_0->0.sync && r->Ok_0->0.ops
                == settle::nack_ops(tenant, key, found->0, seq, now)
        }),
{
}

/// A lease is taken back exactly when it has run out: the task has a deadline, and
/// that has passed. It waits again under its key as it was, without a lease. A task
/// whose lease runs, or that has none, is left alone.
pub proof fn law_reap_takes_back_overdue(
    s: Store,
    tenant: Seq<char>,
    queue: Seq<char>,
    now: u64,
    rs: Seq<RecordView>,
    i: int,
    t: TaskView,
)
    requires
        store::ascending(rs),
        0 <= i < rs.len(),
        rs[i].value.len() <= u64::MAX,
        task::read_task(rs[i].value) == Some(t),
    ensures
        ({
            let after = store::apply(s, reaper::reap_ops(tenant, queue, now, rs));
            let key = rs[i].key;
            let waits = store::look(after, tenant + "__pending"@, key);
            if t.deadline > 0 && t.deadline < now {
                &&& store::look(after, tenant + "__inflight"@, key) is None
                &&& waits is Some
                &&& task::read_task(waits->0) matches Some(w) && w.id == t.id && w.queue == t.queue
                    && w.payload == t.payload && w.enqueued_at == t.enqueued_at && w.attempts
                    == t.attempts && w.deadline == 0
            } else {
                &&& store::look(after, tenant + "__inflight"@, key) == store::look(
                    s,
                    tenant + "__inflight"@,
                    key,
                )
                &&& waits == store::look(s, tenant + "__pending"@, key)
            }
        }),
        store::look(
            store::apply(s, reaper::reap_ops(tenant, queue, now, rs)),
            tenant + "__dlq"@,
            rs[i].key,
        ) == store::look(s, tenant + "__dlq"@, rs[i].key),
{
    let key = rs[i].key;
    law_reap_keeps_tasks(s, tenant, queue, now, rs, i);
    if t.deadline > 0 && t.deadline < now {
        law_reaped_is_readable(s, tenant, queue, now, rs, i);
    } else {
        lemma_reap_elsewhere(s, tenant, queue, now, rs, i, tenant + "__pending"@);
    }
    lemma_reap_elsewhere(s, tenant, queue, now, rs, i, tenant + "__dlq"@);
}

/// A sweep does not write a task to a family to which it does not move it.
proof fn lemma_reap_elsewhere(
    s: Store,
    tenant: Seq<char>,
    queue: Seq<char>,
    now: u64,
    rs: Seq<RecordView>,
    i: int,
    cf: Seq<char>,
)
    requires
        store::ascending(rs),
        0 <= i < rs.len(),
        task::read_task(rs[i].value) is Some,
        cf == tenant + "__dlq"@ || (cf == tenant + "__pending"@ && !reaper::overdue(
            rs[i].value,
            now,
        )),
    ensures
        store::look(
            store::apply(s, reaper::reap_ops(tenant, queue, now, rs)),
            cf,
            rs[i].key,
        ) == store::look(s, cf, rs[i].key),
    decreases rs.len(),
{
    isolation::law_families_distinct(tenant, tenant);
    let key = rs[i].key;
    let rest = rs.drop_last();
    let last = reaper::reap_op(tenant, queue, now, rs.last());
    let ops = reaper::reap_ops(tenant, queue, now, rest);
    let mid = store::apply(s, ops);
    store::lemma_apply_concat(s, ops, last);
    if i < rest.len() {
        assert(rest[i] == rs[i]);
        assert forall|a: int, b: int| 0 <= a < b < rest.len() implies keys::key_lt(
            #[trigger] rest[a].key,
            #[trigger] rest[b].key,
        ) by {
            assert(rest[a] == rs[a] && rest[b] == rs[b]);
        }
        lemma_reap_elsewhere(s, tenant, queue, now, rest, i, cf);
        store::lemma_ascending_distinct(rs, i, rs.len() - 1);
        store::lemma_untouched(mid, last, cf, key);
    } else {
        assert forall|j: int| 0 <= j < rest.len() implies (#[trigger] rest[j]).key != key by {
            assert(rest[j] == rs[j]);
            store::lemma_ascending_distinct(rs, j, i);
        }
        law_reap_spares(s, tenant, queue, now, rest, cf, key);
        store::lemma_untouched(mid, last, cf, key);
    }
}

/// Bytes that are no task do not stop a sweep: they leave the leased ones and are
/// kept among the dead letters.
pub proof fn law_reap_keeps_corrupt_bytes(
    s: Store,
    tenant: Seq<char>,
    queue: Seq<char>,
    now: u64,
    rs: Seq<RecordView>,
    i: int,
)
    requires
        store::ascending(rs),
        0 <= i < rs.len(),
        rs[i].value.len() <= u64::MAX,
        vstd::utf8::encode_utf8(queue).len() <= u64::MAX,
        task::read_task(rs[i].value) is None,
    ensures
        ({
            let after = store::apply(s, reaper::reap_ops(tenant, queue, now, rs));
            let kept = store::look(after, tenant + "__dlq"@, rs[i].key);
            &&& store::look(after, tenant + "__inflight"@, rs[i].key) is None
            &&& kept is Some
            &&& task::read_task(kept->0) matches Some(w) && w.payload == rs[i].value && w.queue
                == queue && w.attempts == u32::MAX && w.deadline == 0 && w.enqueued_at == now
                && w.id == "poison"@
        }),
{
    law_reap_keeps_tasks(s, tenant, queue, now, rs, i);
    law_envelope_stored(queue, rs[i].value, now);
}

/// How far a sweep goes and when it succeeds: it looks at the records up to the first
/// of another queue, fails where a family that it needs is missing or where the
/// reading failed before it was done, and writes nothing where there is nothing to
/// do.
pub proof fn law_sweep_outcome(
    tenant: Seq<char>,
    queue: Seq<char>,
    fam: Families,
    now: u64,
    scan: ScanView,
    n: int,
)
    requires
        0 <= n <= scan.records.len(),
        forall|i: int|
            0 <= i < n ==> task::prefix_code(queue).is_prefix_of((#[trigger] scan.records[i]).key),
        n < scan.records.len() ==> !task::prefix_code(queue).is_prefix_of(scan.records[n].key),
    ensures
        ({
            let r = reaper::reaped(tenant, queue, fam, now, scan);
            let ops = reaper::reap_ops(tenant, queue, now, scan.records.take(n));
            &&& r is Ok <==> {
                &&& fam.inflight && fam.pending
                &&& n < scan.records.len() || scan.failure is None
                &&& fam.dlq || forall|i: int|
                    0 <= i < n ==> task::read_task((#[trigger] scan.records[i]).value) is Some
            }
            &&& r is Ok ==> (r->Ok_0 is None <==> ops.len() == 0)
            &&& r is Ok && ops.len() > 0 ==> r->Ok_0->0.ops == ops && !r->Ok_0->0.sync
        }),
{
    let prefix = task::prefix_code(queue);
    let rs = scan.records;
    reaper::lemma_leading(prefix, rs, n);
    if n < rs.len() {
        assert(rs.skip(n)[0] == rs[n]);
    } else {
        assert(rs.skip(n).len() == 0);
    }
    assert(reaper::leading(prefix, rs) == n);
    let lead = rs.take(n);
    if reaper::all_tasks(lead) {
        assert forall|i: int| 0 <= i < n implies task::read_task(
            (#[trigger] rs[i]).value,
        ) is Some by {
            assert(lead[i] == rs[i]);
        }
    }
    if forall|i: int| 0 <= i < n ==> task::read_task((#[trigger] rs[i]).value) is Some {
        assert forall|i: int| 0 <= i < lead.len() implies task::read_task(
            (#[trigger] lead[i]).value,
        ) is Some by {
            assert(lead[i] == rs[i]);
        }
    }
}

/// A dead letter that is replayed starts over: it waits at the end of its queue, the
/// first under the first number and each further one under the next, with no attempt
/// and no lease, and is else as it was.
pub proof fn law_replay_starts_over(
    s: Store,
    tenant: Seq<char>,
    first: u64,
    rs: Seq<RecordView>,
    i: int,
    t: TaskView,
)
    requires
        store::ascending(rs),
        forall|j: int|
            0 <= j < rs.len() ==> task::read_task((#[trigger] rs[j]).value) is Some
                && rs[j].value.len() <= u64::MAX,
        first + rs.len() <= u64::MAX + 1,
        0 <= i < rs.len(),
        task::read_task(rs[i].value) == Some(t),
    ensures
        ({
            let after = store::apply(s, dlq::replay_ops(tenant, first, rs));
            let back = store::look(
                after,
                tenant + "__pending"@,
                task::key_code(t.queue, (first + i) as u64),
            );
            &&& store::look(after, tenant + "__dlq"@, rs[i].key) is None
            &&& back is Some
            &&& task::read_task(back->0) matches Some(w) && w.id == t.id && w.queue == t.queue
                && w.payload == t.payload && w.enqueued_at == t.enqueued_at && w.attempts == 0
                && w.deadline == 0
        }),
{
    lemma_leading_all_tasks(rs);
    law_replay_moves(s, tenant, first, rs, i);
    assert(enqueue::nth_seq(first, i) == first + i);
}

/// Records that are all tasks all lead.
proof fn lemma_leading_all_tasks(rs: Seq<RecordView>)
    requires
        forall|j: int| 0 <= j < rs.len() ==> task::read_task((#[trigger] rs[j]).value) is Some,
    ensures
        dlq::leading_tasks(rs) == rs.len(),
{
    dlq::lemma_leading_tasks(rs, rs.len() as int);
    assert(rs.skip(rs.len() as int).len() == 0);
}

/// A replay is all or nothing: it succeeds where the families are there, all dead
/// letters are tasks and were read, tells how many there were, and waits for the
/// disk. The numbers that it uses up are those of the tasks in front of the first
/// that is none.
pub proof fn law_replay_outcome(
    tenant: Seq<char>,
    fam: Families,
    first: u64,
    scan: ScanView,
    n: int,
)
    requires
        0 <= n <= scan.records.len(),
        forall|j: int|
            0 <= j < n ==> task::read_task((#[trigger] scan.records[j]).value) is Some,
        n < scan.records.len() ==> task::read_task(scan.records[n].value) is None,
    ensures
        ({
            let r = dlq::replayed(tenant, fam, first, scan);
            &&& r is Ok <==> fam.pending && fam.dlq && n == scan.records.len() && scan.failure
                is None
            &&& r is Ok ==> (r->Ok_0).0 == scan.records.len()
            &&& r is Ok ==> ((r->Ok_0).1 is None <==> scan.records.len() == 0)
            &&& r is Ok && scan.records.len() > 0 ==> (r->Ok_0).1->0.ops == dlq::replay_ops(
                tenant,
                first,
                scan.records,
            ) && (r->Ok_0).1->0.sync
            &&& dlq::replay_uses(fam, scan) == (if fam.pending && fam.dlq {
                n
            } else {
                0
            })
        }),
{
    let rs = scan.records;
    dlq::lemma_leading_tasks(rs, n);
    if n < rs.len() {
        assert(rs.skip(n)[0] == rs[n]);
    } else {
        assert(rs.skip(n).len() == 0);
    }
    lemma_replay_at(tenant, first, rs);
}

/// A purge drops every dead letter that was read, tells how many, and waits for the
/// disk.
pub proof fn law_purge_outcome(tenant: Seq<char>, fam: Families, scan: ScanView)
    ensures
        ({
            let r = dlq::purged(tenant, fam, scan);
            &&& r is Ok <==> fam.dlq && scan.failure is None
            &&& r is Ok ==> (r->Ok_0).0 == scan.records.len()
            &&& r is Ok ==> ((r->Ok_0).1 is None <==> scan.records.len() == 0)
            &&& r is Ok && scan.records.len() > 0 ==> {
                let b = (r->Ok_0).1->0;
                &&& b.sync
                &&& b.ops.len() == scan.records.len()
                &&& forall|i: int|
                    0 <= i < b.ops.len() ==> ((#[trigger] b.ops[i]) matches OpView::Delete { cf, key }
                        && cf == tenant + "__dlq"@ && key == scan.records[i].key)
            }
        }),
{
}

/// An eviction drops the first of the waiting records, as many as asked for or as
/// there are, and does not wait for the disk.
pub proof fn law_eviction_outcome(tenant: Seq<char>, fam: Families, count: nat, scan: ScanView)
    ensures
        ({
            let r = quota::evicted(tenant, fam, count, scan);
            &&& r is Ok <==> fam.pending && (scan.failure is None || scan.records.len() >= count)
            &&& r is Ok ==> (r->Ok_0 is None <==> count == 0 || scan.records.len() == 0)
            &&& r is Ok && r->Ok_0 is Some ==> {
                let b = r->Ok_0->0;
                &&& !b.sync
                &&& b.ops.len() <= count && b.ops.len() <= scan.records.len()
                &&& b.ops.len() == count || b.ops.len() == scan.records.len()
                &&& forall|i: int|
                    0 <= i < b.ops.len() ==> ((#[trigger] b.ops[i]) matches OpView::Delete { cf, key }
                        && cf == tenant + "__pending"@ && key == scan.records[i].key)
            }
        }),
{
}

/// A cumulative acknowledgement tells how many leased tasks it acknowledged: with the
/// numbers in order, those that are no higher than the given one.
pub proof fn law_cumulative_ack_counts(
    tenant: Seq<char>,
    fam: Families,
    queue: Seq<char>,
    up_to: u64,
    scan: ScanView,
    numbers: Seq<u64>,
    n: int,
)
    requires
        fam.inflight,
        scan.failure is None,
        numbers.len() == scan.records.len(),
        forall|i: int|
            0 <= i < numbers.len() ==> (#[trigger] scan.records[i]).key == task::key_code(
                queue,
                numbers[i],
            ),
        0 <= n <= numbers.len(),
        forall|i: int| 0 <= i < n ==> #[trigger] numbers[i] <= up_to,
        n < numbers.len() ==> numbers[n] > up_to,
    ensures
        ({
            let r = settle::cumulative(tenant, fam, up_to, scan);
            &&& r is Ok
            &&& (r->Ok_0).0 == n
            &&& (r->Ok_0).1 is None <==> n == 0
            &&& n > 0 ==> {
                let b = (r->Ok_0).1->0;
                &&& !b.sync
                &&& b.ops.len() == n
                &&& forall|i: int|
                    0 <= i < n ==> ((#[trigger] b.ops[i]) matches OpView::Delete { cf, key } && cf
                        == tenant + "__inflight"@ && key == scan.records[i].key)
            }
        }),
{
    let rs = scan.records;
    assert forall|i: int| 0 <= i < n implies !settle::beyond((#[trigger] rs[i]).key, up_to) by {
        task::law_key_seq_roundtrip(queue, numbers[i]);
        assert(numbers[i] <= up_to);
    }
    if n < rs.len() {
        task::law_key_seq_roundtrip(queue, numbers[n]);
        assert(settle::beyond(rs[n].key, up_to));
    }
    lemma_reach_bound(rs, up_to);
    let m = settle::reach(rs, up_to) as int;
    if m < n {
        assert(!settle::beyond(rs[m].key, up_to));
    } else if n < m {
        assert(!settle::beyond(rs[n].key, up_to));
    }
    let lead = rs.take(n);
    assert forall|i: int| 0 <= i < lead.len() implies task::key_seq(
        (#[trigger] lead[i]).key,
    ) is Some by {
        assert(lead[i] == rs[i]);
        task::law_key_seq_roundtrip(queue, numbers[i]);
    }
    lemma_numbered_all(lead);
}

/// Where every key holds a number all are numbered.
proof fn lemma_numbered_all(rs: Seq<RecordView>)
    requires
        forall|i: int| 0 <= i < rs.len() ==> task::key_seq((#[trigger] rs[i]).key) is Some,
    ensures
        settle::numbered(rs) == rs.map_values(|r: RecordView| r.key),
    decreases rs.len(),
{
    let ks = rs.map_values(|r: RecordView| r.key);
    if rs.len() > 0 {
        let rest = rs.drop_last();
        assert forall|i: int| 0 <= i < rest.len() implies task::key_seq(
            (#[trigger] rest[i]).key,
        ) is Some by {
            assert(rest[i] == rs[i]);
        }
        lemma_numbered_all(rest);
        assert(task::key_seq(rs[rs.len() - 1].key) is Some);
        assert(settle::numbered(rs) =~= ks);
    } else {
        assert(settle::numbered(rs) =~= ks);
    }
}

/// Acknowledging tasks that are leased in place leaves every other as it is.
pub proof fn law_lease_ack_spares(
    s: Store,
    tenant: Seq<char>,
    ks: Seq<Seq<u8>>,
    cf: Seq<char>,
    key: Seq<u8>,
)
    requires
        !ks.contains(key) || (cf != tenant + "__pending"@ && cf != tenant + "__inflight"@),
    ensures
        store::look(
            store::apply(
                s,
                settle::forget_twice_ops(tenant + "__pending"@, tenant + "__inflight"@, ks),
            ),
            cf,
            key,
        ) == store::look(s, cf, key),
    decreases ks.len(),
{
    if ks.len() > 0 {
        let p = tenant + "__pending"@;
        let q = tenant + "__inflight"@;
        let rest = ks.drop_last();
        if rest.contains(key) {
            let i = choose|i: int| 0 <= i < rest.len() && rest[i] == key;
            assert(ks[i] == key);
        }
        law_lease_ack_spares(s, tenant, rest, cf, key);
        let ops = settle::forget_twice_ops(p, q, rest);
        let last = seq![
            OpView::Delete { cf: p, key: ks.last() },
            OpView::Delete { cf: q, key: ks.last() },
        ];
        store::lemma_apply_concat(s, ops, last);
        assert(ks[ks.len() - 1] == ks.last());
        store::lemma_untouched(store::apply(s, ops), last, cf, key);
    }
}

/// Why giving a task back fails: a family is missing, looked for in the order in which
/// tasks pass through them. Nothing is written for a task that is not leased.
pub proof fn law_nack_fails(
    tenant: Seq<char>,
    key: Seq<u8>,
    fam: Families,
    found: Option<Seq<u8>>,
    seq: u64,
    now: u64,
)
    ensures
        ({
            let r = settle::nacked(tenant, key, fam, found, seq, now);
            &&& !fam.pending ==> r == Err::<Option<BatchView>, Fault>(
                Fault::ColumnFamilyMissing(tenant + "__pending"@),
            )
            &&& fam.pending && !fam.inflight ==> r == Err::<Option<BatchView>, Fault>(
                Fault::ColumnFamilyMissing(tenant + "__inflight"@),
            )
            &&& fam.pending && fam.inflight && !fam.dlq ==> r == Err::<Option<BatchView>, Fault>(
                Fault::ColumnFamilyMissing(tenant + "__dlq"@),
            )
            &&& fam.pending && fam.inflight && fam.dlq ==> (r matches Ok(b) && (b is None <==> found
                is None))
        }),
{
}

/// Why a sweep fails: the leased and the waiting tasks' families must be there, that of
/// the dead letters where there are bytes to keep in it, and the store must not fail
/// before another queue's keys are met.
pub proof fn law_sweep_fails(
    tenant: Seq<char>,
    queue: Seq<char>,
    fam: Families,
    now: u64,
    scan: ScanView,
)
    ensures
        ({
            let r = reaper::reaped(tenant, queue, fam, now, scan);
            let n = reaper::leading(task::prefix_code(queue), scan.records);
            let corrupt = exists|i: int|
                0 <= i < n && task::read_task((#[trigger] scan.records[i]).value) is None;
            &&& !fam.inflight ==> r == Err::<Option<BatchView>, Fault>(
                Fault::ColumnFamilyMissing(tenant + "__inflight"@),
            )
            &&& fam.inflight && !fam.pending ==> r == Err::<Option<BatchView>, Fault>(
                Fault::ColumnFamilyMissing(tenant + "__pending"@),
            )
            &&& fam.inflight && fam.pending && !fam.dlq && corrupt ==> r == Err::<
                Option<BatchView>,
                Fault,
            >(Fault::ColumnFamilyMissing(tenant + "__dlq"@))
            &&& fam.inflight && fam.pending && (fam.dlq || !corrupt) && n == scan.records.len() ==> (
            scan.failure matches Some(why) ==> r == Err::<Option<BatchView>, Fault>(
                Fault::Store(why),
            ))
            &&& fam.inflight && fam.pending && (fam.dlq || !corrupt) && (n < scan.records.len()
                || scan.failure is None) ==> r is Ok
        }),
{
    let n = reaper::leading(task::prefix_code(queue), scan.records) as int;
    reaper::lemma_leading_all(task::prefix_code(queue), scan.records);
    let led = scan.records.take(n);
    if !reaper::all_tasks(led) {
        let i = choose|i: int| 0 <= i < led.len() && task::read_task((#[trigger] led[i]).value) is None;
        assert(scan.records[i] == led[i]);
    }
    if reaper::all_tasks(led) {
        assert forall|i: int| 0 <= i < n implies task::read_task(
            (#[trigger] scan.records[i]).value,
        ) is Some by {
            assert(led[i] == scan.records[i]);
        }
    }
}

/// Why a replay fails: the two families must be there, an entry that is no task fails
/// it, and so does a store that fails.
pub proof fn law_replay_fails(tenant: Seq<char>, fam: Families, first: u64, scan: ScanView)
    ensures
        ({
            let r = dlq::replayed(tenant, fam, first, scan);
            let corrupt = exists|i: int|
                0 <= i < scan.records.len() && task::read_task((#[trigger] scan.records[i]).value)
                    is None;
            &&& !fam.pending ==> r == Err::<(nat, Option<BatchView>), Fault>(
                Fault::ColumnFamilyMissing(tenant + "__pending"@),
            )
            &&& fam.pending && !fam.dlq ==> r == Err::<(nat, Option<BatchView>), Fault>(
                Fault::ColumnFamilyMissing(tenant + "__dlq"@),
            )
            &&& fam.pending && fam.dlq && corrupt ==> r == Err::<(nat, Option<BatchView>), Fault>(
                Fault::Serialization,
            )
            &&& fam.pending && fam.dlq && !corrupt ==> (scan.failure matches Some(why) ==> r == Err::<
                (nat, Option<BatchView>),
                Fault,
            >(Fault::Store(why)))
            &&& fam.pending && fam.dlq && !corrupt && scan.failure is None ==> r is Ok
        }),
{
    let rs = scan.records;
    if forall|i: int| 0 <= i < rs.len() ==> task::read_task((#[trigger] rs[i]).value) is Some {
        lemma_leading_all_tasks(rs);
    } else {
        let i = choose|i: int| 0 <= i < rs.len() && task::read_task((#[trigger] rs[i]).value) is None;
        lemma_tasks_end(rs, i);
    }
}

/// Tasks at the front do not go on past what is none.
proof fn lemma_tasks_end(rs: Seq<RecordView>, i: int)
    requires
        0 <= i < rs.len(),
        task::read_task(rs[i].value) is None,
    ensures
        dlq::leading_tasks(rs) <= i,
    decreases rs.len(),
{
    if i > 0 && task::read_task(rs[0].value) is Some {
        assert(rs.drop_first()[i - 1] == rs[i]);
        lemma_tasks_end(rs.drop_first(), i - 1);
    }
}

/// Why acknowledging up to a number fails: the family must be there, and the store must
/// not fail before a higher number is met.
pub proof fn law_cumulative_ack_fails(tenant: Seq<char>, fam: Families, up_to: u64, scan: ScanView)
    ensures
        ({
            let r = settle::cumulative(tenant, fam, up_to, scan);
            let higher = exists|i: int|
                0 <= i < scan.records.len() && (task::key_seq((#[trigger] scan.records[i]).key)
                    matches Some(s) && s > up_to);
            &&& !fam.inflight ==> r == Err::<(nat, Option<BatchView>), Fault>(
                Fault::ColumnFamilyMissing(tenant + "__inflight"@),
            )
            &&& fam.inflight && !higher ==> (scan.failure matches Some(why) ==> r == Err::<
                (nat, Option<BatchView>),
                Fault,
            >(Fault::Store(why)))
            &&& fam.inflight && (higher || scan.failure is None) ==> r is Ok
        }),
{
    lemma_reach_ends(scan.records, up_to);
}

/// Records are reached up to the first with a higher number.
proof fn lemma_reach_ends(rs: Seq<RecordView>, up_to: u64)
    ensures
        settle::reach(rs, up_to) <= rs.len(),
        settle::reach(rs, up_to) < rs.len() <==> exists|i: int|
            0 <= i < rs.len() && (task::key_seq((#[trigger] rs[i]).key) matches Some(s) && s
                > up_to),
    decreases rs.len(),
{
    if rs.len() > 0 && !settle::beyond(rs[0].key, up_to) {
        let rest = rs.drop_first();
        lemma_reach_ends(rest, up_to);
        if settle::reach(rest, up_to) < rest.len() {
            let i = choose|i: int|
                0 <= i < rest.len() && (task::key_seq((#[trigger] rest[i]).key) matches Some(s)
                    && s > up_to);
            assert(rs[i + 1] == rest[i]);
        }
        if exists|i: int|
            0 <= i < rs.len() && (task::key_seq((#[trigger] rs[i]).key) matches Some(s) && s
                > up_to) {
            let i = choose|i: int|
                0 <= i < rs.len() && (task::key_seq((#[trigger] rs[i]).key) matches Some(s) && s
                    > up_to);
            assert(rest[i - 1] == rs[i]);
        }
    }
}

} // verus!
