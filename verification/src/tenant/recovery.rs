//! Tenants and their policies survive a restart.

use vstd::prelude::*;
use vstd::utf8::*;

use crate::keys;
use crate::policy;
use crate::policy::PolicyView;
use crate::reaper;
use crate::store;
use crate::store::{RecordView, ScanView, Store, Table};
use crate::tenant;
use crate::tenant::admin;
use crate::tenant::admin::StepView;
use crate::tenant::isolation;
use crate::tenant::RegistryView;
use crate::text;

verus! {

/// The records are all entries of the family from the key `start` on, in the
/// order of their keys.
pub open spec fn is_forward_scan(t: Table, start: Seq<u8>, rs: Seq<RecordView>) -> bool {
    &&& store::ascending(rs)
    &&& store::entries_of(t, rs)
    &&& forall|i: int| 0 <= i < rs.len() ==> not_before((#[trigger] rs[i]).key, start)
    &&& forall|k: Seq<u8>| #[trigger]
        t.contains_key(k) && not_before(k, start) ==> store::has_key(rs, k)
}

/// The key does not come before `start`.
pub open spec fn not_before(k: Seq<u8>, start: Seq<u8>) -> bool {
    k == start || keys::key_lt(start, k)
}

/// A step done on the store; a family is created only where there is none, and
/// dropped or required only where there is one.
pub open spec fn step(s: Store, st: StepView) -> Option<Store> {
    match st {
        StepView::CreateFamily(p) => if s.contains_key(p.name) {
            None
        } else {
            Some(s.insert(p.name, Map::empty()))
        },
        StepView::DropFamily(name) => if s.contains_key(name) {
            Some(s.remove(name))
        } else {
            None
        },
        StepView::RequireFamily(name) => if s.contains_key(name) {
            Some(s)
        } else {
            None
        },
        StepView::Write(b) => Some(store::apply(s, b.ops)),
    }
}

/// Steps done one after the other.
pub open spec fn perform(s: Store, steps: Seq<StepView>) -> Option<Store>
    decreases steps.len(),
{
    if steps.len() == 0 {
        Some(s)
    } else {
        match step(s, steps[0]) {
            None => None,
            Some(t) => perform(t, steps.drop_first()),
        }
    }
}

/// The store has the system's family and none of the tenant's.
pub open spec fn can_provision(s: Store, tenant: Seq<char>) -> bool {
    &&& s.contains_key(tenant::system_name())
    &&& !s.contains_key(tenant::pending_name(tenant))
    &&& !s.contains_key(tenant::inflight_name(tenant))
    &&& !s.contains_key(tenant::dlq_name(tenant))
}

/// The store with a tenant added.
pub open spec fn with_tenant(s: Store, tenant: Seq<char>, p: PolicyView) -> Store {
    s.insert(tenant::pending_name(tenant), Map::empty()).insert(
        tenant::inflight_name(tenant),
        Map::empty(),
    ).insert(tenant::dlq_name(tenant), Map::empty()).insert(
        tenant::system_name(),
        s[tenant::system_name()].insert(admin::meta_key(tenant), policy::policy_code(p)),
    )
}

/// Provisioning gives a tenant three empty families and keeps its policy, and
/// changes nothing else.
pub proof fn law_provision(s: Store, tenant: Seq<char>, p: PolicyView, reg: RegistryView)
    requires
        can_provision(s, tenant),
    ensures
        perform(s, admin::provision_steps(tenant, p, reg)) == Some(with_tenant(s, tenant, p)),
{
    isolation::law_families_distinct(tenant, tenant);
    let steps = admin::provision_steps(tenant, p, reg);
    let s1 = s.insert(tenant::pending_name(tenant), Map::empty());
    let s2 = s1.insert(tenant::inflight_name(tenant), Map::empty());
    let s3 = s2.insert(tenant::dlq_name(tenant), Map::empty());
    let t1 = steps.drop_first();
    let t2 = t1.drop_first();
    let t3 = t2.drop_first();
    let t4 = t3.drop_first();
    let t5 = t4.drop_first();
    assert(step(s, steps[0]) == Some(s1));
    assert(t1[0] == steps[1]);
    assert(step(s1, t1[0]) == Some(s2));
    assert(t2[0] == steps[2]);
    assert(step(s2, t2[0]) == Some(s3));
    assert(t3[0] == steps[3]);
    assert(step(s3, t3[0]) == Some(s3));
    assert(t4[0] == steps[4]);
    let ops = (t4[0]->Write_0).ops;
    lemma_apply_one(s3, ops);
    assert(step(s3, t4[0]) == Some(with_tenant(s, tenant, p)));
    assert(t5.len() == 0);
    reveal_with_fuel(perform, 6);
}

/// A batch of one change.
proof fn lemma_apply_one(s: Store, ops: Seq<store::OpView>)
    requires
        ops.len() == 1,
    ensures
        store::apply(s, ops) == store::apply_op(s, ops[0]),
{
    assert(ops.drop_last().len() == 0);
    reveal_with_fuel(store::apply, 2);
}

/// A tenant that exists cannot be provisioned again.
pub proof fn law_provision_refused(s: Store, tenant: Seq<char>, p: PolicyView, reg: RegistryView)
    requires
        s.contains_key(tenant::pending_name(tenant)),
    ensures
        perform(s, admin::provision_steps(tenant, p, reg)) is None,
{
    let steps = admin::provision_steps(tenant, p, reg);
    assert(step(s, steps[0]) is None);
}

/// The store without a tenant.
pub open spec fn without_tenant(s: Store, tenant: Seq<char>) -> Store {
    s.remove(tenant::pending_name(tenant)).remove(tenant::inflight_name(tenant)).remove(
        tenant::dlq_name(tenant),
    ).insert(
        tenant::system_name(),
        s[tenant::system_name()].remove(admin::meta_key(tenant)),
    )
}

/// Dropping removes a tenant's three families and its policy, and changes
/// nothing else.
pub proof fn law_drop(s: Store, tenant: Seq<char>)
    requires
        s.contains_key(tenant::system_name()),
        s.contains_key(tenant::pending_name(tenant)),
        s.contains_key(tenant::inflight_name(tenant)),
        s.contains_key(tenant::dlq_name(tenant)),
    ensures
        perform(s, admin::drop_steps(tenant)) == Some(without_tenant(s, tenant)),
{
    isolation::law_families_distinct(tenant, tenant);
    let steps = admin::drop_steps(tenant);
    let s1 = s.remove(tenant::pending_name(tenant));
    let s2 = s1.remove(tenant::inflight_name(tenant));
    let s3 = s2.remove(tenant::dlq_name(tenant));
    let t1 = steps.drop_first();
    let t2 = t1.drop_first();
    let t3 = t2.drop_first();
    let t4 = t3.drop_first();
    let t5 = t4.drop_first();
    assert(step(s, steps[0]) == Some(s1));
    assert(step(s1, t1[0]) == Some(s2));
    assert(step(s2, t2[0]) == Some(s3));
    assert(step(s3, t3[0]) == Some(s3));
    let ops = (t4[0]->Write_0).ops;
    lemma_apply_one(s3, ops);
    assert(step(s3, t4[0]) == Some(without_tenant(s, tenant)));
    assert(t5.len() == 0);
    reveal_with_fuel(perform, 6);
}

/// A tenant that was dropped can be provisioned again, and starts empty.
pub proof fn law_drop_then_provision(s: Store, tenant: Seq<char>, p: PolicyView, reg: RegistryView)
    requires
        s.contains_key(tenant::system_name()),
    ensures
        ({
            let t = without_tenant(s, tenant);
            &&& can_provision(t, tenant)
            &&& with_tenant(t, tenant, p)[tenant::pending_name(tenant)] == Map::<
                Seq<u8>,
                Seq<u8>,
            >::empty()
            &&& with_tenant(t, tenant, p)[tenant::inflight_name(tenant)] == Map::<
                Seq<u8>,
                Seq<u8>,
            >::empty()
            &&& with_tenant(t, tenant, p)[tenant::dlq_name(tenant)] == Map::<
                Seq<u8>,
                Seq<u8>,
            >::empty()
        }),
{
    isolation::law_families_distinct(tenant, tenant);
}

/// Every policy key of the system's family is that of a tenant, and holds a
/// policy.
pub open spec fn policy_records(t: Table) -> bool {
    forall|k: Seq<u8>| #[trigger]
        t.contains_key(k) && admin::meta_prefix().is_prefix_of(k) ==> (exists|name: Seq<char>|
            k == #[trigger] admin::meta_key(name)) && policy::read_policy(t[k]) is Some
}

/// The policies that the system's family holds.
pub open spec fn kept_policies(t: Table) -> Map<Seq<char>, PolicyView> {
    Map::new(
        |name: Seq<char>| t.contains_key(admin::meta_key(name)),
        |name: Seq<char>| policy::read_policy(t[admin::meta_key(name)])->0,
    )
}

/// The keys of policies begin with the prefix and tell tenants apart.
proof fn lemma_meta_key(a: Seq<char>, b: Seq<char>)
    ensures
        admin::meta_prefix().is_prefix_of(admin::meta_key(a)),
        admin::meta_key(a).skip(admin::meta_prefix().len() as int) == encode_utf8(a),
        admin::meta_key(a) == admin::meta_key(b) ==> a == b,
{
    let p = admin::meta_prefix();
    let k = admin::meta_key(a);
    let l = admin::meta_key(b);
    assert(k.subrange(0, p.len() as int) =~= p);
    assert(k.skip(p.len() as int) =~= encode_utf8(a));
    assert(l.skip(p.len() as int) =~= encode_utf8(b));
    if k == l {
        text::lemma_encode_injective(a, b);
    }
}

/// Keeping a policy changes what is kept for that tenant only.
pub proof fn law_policy_kept(t: Table, tenant: Seq<char>, p: PolicyView)
    requires
        policy_records(t),
        encode_utf8(p.tenant_id).len() <= u64::MAX,
        encode_utf8(p.namespace).len() <= u64::MAX,
    ensures
        policy_records(t.insert(admin::meta_key(tenant), policy::policy_code(p))),
        kept_policies(t.insert(admin::meta_key(tenant), policy::policy_code(p)))
            == kept_policies(t).insert(tenant, p),
{
    let key = admin::meta_key(tenant);
    let u = t.insert(key, policy::policy_code(p));
    policy::law_policy_roundtrip(p);
    assert forall|k: Seq<u8>| #[trigger]
        u.contains_key(k) && admin::meta_prefix().is_prefix_of(k) implies (exists|name: Seq<char>|
        k == #[trigger] admin::meta_key(name)) && policy::read_policy(u[k]) is Some by {
        if k != key {
            assert(t.contains_key(k));
        }
    }
    assert forall|name: Seq<char>| name != tenant implies #[trigger] admin::meta_key(name)
        != key by {
        lemma_meta_key(name, tenant);
    }
    assert(kept_policies(u) =~= kept_policies(t).insert(tenant, p));
}

/// Forgetting a policy changes what is kept for that tenant only.
pub proof fn law_policy_forgotten(t: Table, tenant: Seq<char>)
    requires
        policy_records(t),
    ensures
        policy_records(t.remove(admin::meta_key(tenant))),
        kept_policies(t.remove(admin::meta_key(tenant))) == kept_policies(t).remove(tenant),
{
    let key = admin::meta_key(tenant);
    let u = t.remove(key);
    assert forall|k: Seq<u8>| #[trigger]
        u.contains_key(k) && admin::meta_prefix().is_prefix_of(k) implies (exists|name: Seq<char>|
        k == #[trigger] admin::meta_key(name)) && policy::read_policy(u[k]) is Some by {
        assert(t.contains_key(k));
    }
    assert forall|name: Seq<char>| name != tenant implies #[trigger] admin::meta_key(name)
        != key by {
        lemma_meta_key(name, tenant);
    }
    assert(kept_policies(u) =~= kept_policies(t).remove(tenant));
}

/// What begins with a prefix comes before what does not but is not before the
/// prefix.
proof fn lemma_prefixed_first(p: Seq<u8>, q: Seq<u8>, k: Seq<u8>)
    requires
        p.is_prefix_of(q),
        !p.is_prefix_of(k),
        not_before(k, p),
    ensures
        keys::key_lt(q, k),
{
    if k == p {
        assert(p.subrange(0, p.len() as int) =~= p);
    }
    let i = choose|i: int| #[trigger] keys::differ_at(p, k, i);
    if i == p.len() {
        assert(k.subrange(0, p.len() as int) =~= p);
    }
    assert(p[i] == q[i]) by {
        assert(q.subrange(0, p.len() as int)[i] == q[i]);
    }
    assert forall|j: int| 0 <= j < i implies q[j] == k[j] by {
        assert(q.subrange(0, p.len() as int)[j] == q[j]);
        assert(p[j] == k[j]);
    }
    assert(keys::differ_at(q, k, i));
}

/// What begins with a prefix does not come before it.
proof fn lemma_prefixed_not_before(p: Seq<u8>, q: Seq<u8>)
    requires
        p.is_prefix_of(q),
    ensures
        not_before(q, p),
{
    if p.len() == q.len() {
        assert(q.subrange(0, p.len() as int) =~= q);
    } else {
        assert forall|j: int| 0 <= j < p.len() implies p[j] == q[j] by {
            assert(q.subrange(0, p.len() as int)[j] == q[j]);
        }
        assert(keys::differ_at(p, q, p.len() as int));
    }
}

/// The tenants that are loaded are those that are kept.
proof fn lemma_loaded_policies(t: Table, led: Seq<RecordView>, n: int)
    requires
        policy_records(t),
        store::ascending(led),
        store::entries_of(t, led),
        0 <= n <= led.len(),
        forall|i: int|
            0 <= i < led.len() ==> admin::meta_prefix().is_prefix_of((#[trigger] led[i]).key),
    ensures
        ({
            let ts = led.take(n).map_values(|r: RecordView| admin::tenant_of(r));
            let m = admin::policies_of(ts);
            &&& forall|name: Seq<char>| #[trigger]
                m.contains_key(name) <==> store::has_key(led.take(n), admin::meta_key(name))
            &&& forall|name: Seq<char>| #[trigger]
                m.contains_key(name) ==> m[name] == kept_policies(t)[name]
        }),
    decreases n,
{
    let ts = led.take(n).map_values(|r: RecordView| admin::tenant_of(r));
    let m = admin::policies_of(ts);
    if n == 0 {
        assert(ts.len() == 0);
        assert forall|name: Seq<char>| !store::has_key(
            led.take(n),
            #[trigger] admin::meta_key(name),
        ) by {}
    } else {
        lemma_loaded_policies(t, led, n - 1);
        let r = led[n - 1];
        let before = led.take(n - 1).map_values(|r: RecordView| admin::tenant_of(r));
        assert(ts.drop_last() =~= before);
        assert(ts.last() == admin::tenant_of(r));
        assert(t.contains_key(r.key));
        let name = choose|name: Seq<char>| r.key == #[trigger] admin::meta_key(name);
        lemma_meta_key(name, name);
        text::lemma_text_from(name);
        assert(admin::tenant_of(r).0 == name);
        let old = admin::policies_of(before);
        assert(m == old.insert(name, admin::tenant_of(r).1));
        assert(kept_policies(t).contains_key(name));
        assert forall|x: Seq<char>| #[trigger] m.contains_key(x) <==> store::has_key(
            led.take(n),
            admin::meta_key(x),
        ) by {
            lemma_meta_key(x, name);
            lemma_meta_key(name, x);
            if m.contains_key(x) {
                if x == name {
                    assert(led.take(n)[n - 1].key == admin::meta_key(x));
                } else {
                    assert(old.contains_key(x));
                    let i = choose|i: int|
                        0 <= i < led.take(n - 1).len() && (#[trigger] led.take(n - 1)[i]).key
                            == admin::meta_key(x);
                    assert(led.take(n)[i] == led.take(n - 1)[i]);
                }
            }
            if store::has_key(led.take(n), admin::meta_key(x)) {
                let i = choose|i: int|
                    0 <= i < led.take(n).len() && (#[trigger] led.take(n)[i]).key
                        == admin::meta_key(x);
                if i < n - 1 {
                    assert(led.take(n - 1)[i] == led.take(n)[i]);
                    assert(old.contains_key(x));
                }
            }
        }
        assert forall|x: Seq<char>| #[trigger] m.contains_key(x) implies m[x]
            == kept_policies(t)[x] by {
            if x != name {
                assert(old.contains_key(x));
            }
        }
    }
}

/// A restart brings back exactly the tenants that are kept, each with its
/// policy.
pub proof fn law_restart_recovers(t: Table, rs: Seq<RecordView>)
    requires
        policy_records(t),
        is_forward_scan(t, admin::meta_prefix(), rs),
    ensures
        ({
            let found = admin::loaded(ScanView { records: rs, failure: None });
            &&& found is Ok
            &&& admin::policies_of(found->Ok_0) == kept_policies(t)
        }),
{
    let p = admin::meta_prefix();
    let n = reaper::leading(p, rs) as int;
    let led = rs.take(n);
    reaper::lemma_leading_all(p, rs);
    assert forall|i: int| 0 <= i < led.len() implies p.is_prefix_of((#[trigger] led[i]).key)
        && policy::read_policy(led[i].value) is Some && t.contains_key(led[i].key)
        && t[led[i].key] == led[i].value by {
        assert(led[i] == rs[i]);
        assert(t.contains_key(rs[i].key));
    }
    assert forall|i: int, j: int| 0 <= i < j < led.len() implies keys::key_lt(
        #[trigger] led[i].key,
        #[trigger] led[j].key,
    ) by {
        assert(led[i] == rs[i] && led[j] == rs[j]);
    }
    admin::lemma_leading_policies(led, n);
    assert(led.skip(n).len() == 0);
    lemma_loaded_policies(t, led, n);
    assert(led.take(n) =~= led);
    let ts = led.map_values(|r: RecordView| admin::tenant_of(r));
    let m = admin::policies_of(ts);
    assert forall|name: Seq<char>| #[trigger] m.contains_key(name) <==> kept_policies(
        t,
    ).contains_key(name) by {
        let key = admin::meta_key(name);
        lemma_meta_key(name, name);
        if m.contains_key(name) {
            assert(store::has_key(led, key));
            let i = choose|i: int| 0 <= i < led.len() && (#[trigger] led[i]).key == key;
            assert(led[i].key == key);
        }
        if t.contains_key(key) {
            lemma_prefixed_not_before(p, key);
            assert(store::has_key(rs, key));
            let i = choose|i: int| 0 <= i < rs.len() && (#[trigger] rs[i]).key == key;
            if i >= n {
                assert(!p.is_prefix_of(rs[n].key));
                lemma_prefixed_first(p, key, rs[n].key);
                if i > n {
                    assert(keys::key_lt(rs[n].key, rs[i].key));
                    keys::lemma_key_asymmetric(rs[n].key, key);
                }
                assert(false);
            }
            assert(led[i].key == key);
            assert(store::has_key(led, key));
            assert(m.contains_key(name));
        }
    }
    assert(m =~= kept_policies(t));
}

/// What was provisioned or updated is there after a restart: once the policy is
/// kept, opening the store again gives the tenant that policy.
pub proof fn law_policy_survives_restart(
    t: Table,
    tenant: Seq<char>,
    p: PolicyView,
    rs: Seq<RecordView>,
)
    requires
        policy_records(t),
        encode_utf8(p.tenant_id).len() <= u64::MAX,
        encode_utf8(p.namespace).len() <= u64::MAX,
        is_forward_scan(
            t.insert(admin::meta_key(tenant), policy::policy_code(p)),
            admin::meta_prefix(),
            rs,
        ),
    ensures
        ({
            let found = admin::loaded(ScanView { records: rs, failure: None });
            let m = admin::policies_of(found->Ok_0);
            found is Ok && m.contains_key(tenant) && m[tenant] == p
        }),
{
    law_policy_kept(t, tenant, p);
    law_restart_recovers(t.insert(admin::meta_key(tenant), policy::policy_code(p)), rs);
}

} // verus!
