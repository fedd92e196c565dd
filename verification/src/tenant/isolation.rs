//! No operation for one tenant reaches another tenant's data.

use vstd::prelude::*;

use crate::reaper;
use crate::store;
use crate::store::{OpView, RecordView, Store};
use crate::task;
use crate::tenant;
use crate::tenant::dequeue;
use crate::tenant::dequeue::Lease;
use crate::tenant::dlq;
use crate::tenant::enqueue;
use crate::tenant::quota;
use crate::tenant::settle;
use crate::tenant::LeasedView;

verus! {

/// A family of the tenant.
pub open spec fn own_family(tenant: Seq<char>, cf: Seq<char>) -> bool {
    cf == tenant::pending_name(tenant) || cf == tenant::inflight_name(tenant) || cf
        == tenant::dlq_name(tenant)
}

/// The changes are made in the tenant's families only.
pub open spec fn stays_with(tenant: Seq<char>, ops: Seq<OpView>) -> bool {
    forall|i: int| 0 <= i < ops.len() ==> own_family(tenant, store::op_family(#[trigger] ops[i]))
}

/// What the names of families end in.
proof fn lemma_suffixes()
    ensures
        "__pending"@.len() == 9,
        "__pending"@[8] == 'g',
        "__inflight"@.len() == 10,
        "__inflight"@[9] == 't',
        "__dlq"@.len() == 5,
        "__dlq"@[4] == 'q',
        "__system__"@.len() == 10,
        "__system__"@[9] == '_',
{
    reveal_strlit("__pending");
    reveal_strlit("__inflight");
    reveal_strlit("__dlq");
    reveal_strlit("__system__");
}

/// A text is found again in front of a known ending.
proof fn lemma_same_front(a: Seq<char>, b: Seq<char>, end: Seq<char>)
    requires
        a + end == b + end,
    ensures
        a == b,
{
    assert((a + end).len() == a.len() + end.len());
    assert((b + end).len() == b.len() + end.len());
    assert forall|i: int| 0 <= i < a.len() implies a[i] == b[i] by {
        assert((a + end)[i] == a[i]);
        assert((b + end)[i] == b[i]);
    }
    assert(a =~= b);
}

/// Texts with different last characters differ.
proof fn lemma_last_differs(a: Seq<char>, x: Seq<char>, b: Seq<char>, y: Seq<char>)
    requires
        x.len() > 0,
        y.len() > 0,
        x.last() != y.last(),
    ensures
        a + x != b + y,
{
    assert((a + x).last() == x.last());
    assert((b + y).last() == y.last());
}

/// The families of tenants are all different: from each other, from those of
/// other tenants, and from the system's.
pub proof fn law_families_distinct(a: Seq<char>, b: Seq<char>)
    ensures
        tenant::pending_name(a) != tenant::inflight_name(b),
        tenant::pending_name(a) != tenant::dlq_name(b),
        tenant::inflight_name(a) != tenant::dlq_name(b),
        tenant::pending_name(a) == tenant::pending_name(b) <==> a == b,
        tenant::inflight_name(a) == tenant::inflight_name(b) <==> a == b,
        tenant::dlq_name(a) == tenant::dlq_name(b) <==> a == b,
        tenant::pending_name(a) != tenant::system_name(),
        tenant::inflight_name(a) != tenant::system_name(),
        tenant::dlq_name(a) != tenant::system_name(),
{
    lemma_suffixes();
    let none = Seq::<char>::empty();
    assert(none + "__system__"@ =~= "__system__"@);
    lemma_last_differs(a, "__pending"@, b, "__inflight"@);
    lemma_last_differs(a, "__pending"@, b, "__dlq"@);
    lemma_last_differs(a, "__inflight"@, b, "__dlq"@);
    lemma_last_differs(a, "__pending"@, none, "__system__"@);
    lemma_last_differs(a, "__inflight"@, none, "__system__"@);
    lemma_last_differs(a, "__dlq"@, none, "__system__"@);
    if tenant::pending_name(a) == tenant::pending_name(b) {
        lemma_same_front(a, b, "__pending"@);
    }
    if tenant::inflight_name(a) == tenant::inflight_name(b) {
        lemma_same_front(a, b, "__inflight"@);
    }
    if tenant::dlq_name(a) == tenant::dlq_name(b) {
        lemma_same_front(a, b, "__dlq"@);
    }
}

/// Changes that stay with a tenant leave the families of every other tenant,
/// and the system's, as they are.
pub proof fn law_tenant_isolation(
    s: Store,
    tenant: Seq<char>,
    other: Seq<char>,
    ops: Seq<OpView>,
)
    requires
        stays_with(tenant, ops),
        tenant != other,
    ensures
        store::apply(s, ops)[tenant::pending_name(other)] == s[tenant::pending_name(other)],
        store::apply(s, ops)[tenant::inflight_name(other)] == s[tenant::inflight_name(other)],
        store::apply(s, ops)[tenant::dlq_name(other)] == s[tenant::dlq_name(other)],
        store::apply(s, ops)[tenant::system_name()] == s[tenant::system_name()],
{
    law_families_distinct(tenant, other);
    law_families_distinct(other, tenant);
    store::lemma_apply_frame(s, ops, tenant::pending_name(other));
    store::lemma_apply_frame(s, ops, tenant::inflight_name(other));
    store::lemma_apply_frame(s, ops, tenant::dlq_name(other));
    store::lemma_apply_frame(s, ops, tenant::system_name());
}

/// Two lists of changes that stay with a tenant stay with it together.
proof fn lemma_stays_concat(tenant: Seq<char>, a: Seq<OpView>, b: Seq<OpView>)
    requires
        stays_with(tenant, a),
        stays_with(tenant, b),
    ensures
        stays_with(tenant, a + b),
{
    assert forall|i: int| 0 <= i < (a + b).len() implies own_family(
        tenant,
        store::op_family(#[trigger] (a + b)[i]),
    ) by {
        if i < a.len() {
            assert((a + b)[i] == a[i]);
        } else {
            assert((a + b)[i] == b[i - a.len()]);
        }
    }
}

/// Adding tasks stays with the tenant.
pub proof fn law_enqueue_stays(
    tenant: Seq<char>,
    queue: Seq<char>,
    ids: Seq<Seq<char>>,
    payloads: Seq<Seq<u8>>,
    first: u64,
    now: u64,
)
    ensures
        stays_with(tenant, enqueue::enqueue_ops(tenant, queue, ids, payloads, first, now)),
{
}

/// Handing tasks out stays with the tenant.
pub proof fn law_dequeue_stays(l: Lease, rs: Seq<RecordView>)
    ensures
        stays_with(l.tenant, dequeue::take_all_ops(l, rs)),
    decreases rs.len(),
{
    if rs.len() > 0 {
        law_dequeue_stays(l, rs.drop_last());
        assert(stays_with(l.tenant, dequeue::take_ops(l, rs.last())));
        lemma_stays_concat(
            l.tenant,
            dequeue::take_all_ops(l, rs.drop_last()),
            dequeue::take_ops(l, rs.last()),
        );
    }
}

/// Leasing in place stays with the tenant.
pub proof fn law_lease_stays(l: Lease, ts: Seq<LeasedView>)
    ensures
        stays_with(l.tenant, dequeue::lease_ops(l, ts)),
{
}

/// Dropping waiting tasks or dead letters stays with the tenant.
pub proof fn law_drop_stays(tenant: Seq<char>, rs: Seq<RecordView>)
    ensures
        stays_with(tenant, quota::delete_ops(tenant::pending_name(tenant), rs)),
        stays_with(tenant, quota::delete_ops(tenant::dlq_name(tenant), rs)),
{
}

/// Acknowledging stays with the tenant.
pub proof fn law_ack_stays(tenant: Seq<char>, ks: Seq<Seq<u8>>)
    ensures
        stays_with(tenant, settle::forget_ops(tenant::inflight_name(tenant), ks)),
        stays_with(
            tenant,
            settle::forget_twice_ops(
                tenant::pending_name(tenant),
                tenant::inflight_name(tenant),
                ks,
            ),
        ),
    decreases ks.len(),
{
    if ks.len() > 0 {
        law_ack_stays(tenant, ks.drop_last());
        let last = seq![
            OpView::Delete { cf: tenant::pending_name(tenant), key: ks.last() },
            OpView::Delete { cf: tenant::inflight_name(tenant), key: ks.last() },
        ];
        assert(stays_with(tenant, last));
        lemma_stays_concat(
            tenant,
            settle::forget_twice_ops(
                tenant::pending_name(tenant),
                tenant::inflight_name(tenant),
                ks.drop_last(),
            ),
            last,
        );
    }
}

/// Giving a task back stays with the tenant.
pub proof fn law_nack_stays(tenant: Seq<char>, key: Seq<u8>, value: Seq<u8>, seq: u64, now: u64)
    ensures
        stays_with(tenant, settle::nack_ops(tenant, key, value, seq, now)),
{
}

/// Replaying dead letters stays with the tenant.
pub proof fn law_replay_stays(tenant: Seq<char>, first: u64, rs: Seq<RecordView>)
    ensures
        stays_with(tenant, dlq::replay_ops(tenant, first, rs)),
    decreases rs.len(),
{
    if rs.len() > 0 {
        law_replay_stays(tenant, first, rs.drop_last());
        let seq = enqueue::nth_seq(first, rs.len() - 1);
        assert(stays_with(tenant, dlq::replay_op(tenant, rs.last(), seq)));
        lemma_stays_concat(
            tenant,
            dlq::replay_ops(tenant, first, rs.drop_last()),
            dlq::replay_op(tenant, rs.last(), seq),
        );
    }
}

/// Taking leases back stays with the tenant.
pub proof fn law_reap_stays(tenant: Seq<char>, queue: Seq<char>, now: u64, rs: Seq<RecordView>)
    ensures
        stays_with(tenant, reaper::reap_ops(tenant, queue, now, rs)),
    decreases rs.len(),
{
    if rs.len() > 0 {
        law_reap_stays(tenant, queue, now, rs.drop_last());
        assert(stays_with(tenant, reaper::reap_op(tenant, queue, now, rs.last())));
        lemma_stays_concat(
            tenant,
            reaper::reap_ops(tenant, queue, now, rs.drop_last()),
            reaper::reap_op(tenant, queue, now, rs.last()),
        );
    }
}

/// All keys of a queue are grouped under the queue's prefix, as long as its
/// name holds no zero byte.
pub proof fn law_key_group(queue: Seq<char>, seq: u64)
    requires
        !vstd::utf8::encode_utf8(queue).contains(0u8),
    ensures
        tenant::key_group(task::key_code(queue, seq)) == task::prefix_code(queue),
{
    let key = task::key_code(queue, seq);
    let q = vstd::utf8::encode_utf8(queue);
    crate::keys::lemma_be_len(seq as nat, 8);
    assert forall|i: int| 0 <= i < q.len() implies key[i] != 0 by {
        assert(key[i] == q[i]);
        assert(q.contains(q[i]));
    }
    assert(key[q.len() as int] == 0);
    task::lemma_name_len_is(key, q.len() as int);
    assert(tenant::key_group(key) =~= task::prefix_code(queue));
}

} // verus!
