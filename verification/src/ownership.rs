//! Which node owns a tenant.

use vstd::prelude::*;

use crate::tenant_map::TenantMap;
use crate::text;

verus! {

/// The nodes that tenants are assigned to. A single node owns every tenant
/// that is not assigned.
pub struct OwnershipMap {
    assignments: TenantMap<String>,
}

/// Nodes as mathematical values.
pub open spec fn nodes(m: Map<Seq<char>, String>) -> Map<Seq<char>, Seq<char>> {
    m.map_values(|n: String| n@)
}

impl View for OwnershipMap {
    type V = Map<Seq<char>, Seq<char>>;

    closed spec fn view(&self) -> Map<Seq<char>, Seq<char>> {
        nodes(self.assignments@)
    }
}

/// Whether the tenant is the node's own.
pub open spec fn owned_by(m: Map<Seq<char>, Seq<char>>, tenant: Seq<char>, node: Seq<char>) -> bool {
    m.contains_key(tenant) ==> m[tenant] == node
}

impl OwnershipMap {
    /// The map of tenants is in order.
    pub closed spec fn wf(&self) -> bool {
        self.assignments.wf()
    }

    /// No tenant is assigned.
    pub fn new() -> (r: Self)
        ensures
            r.wf(),
            r@ == Map::<Seq<char>, Seq<char>>::empty(),
    {
        let r = OwnershipMap { assignments: TenantMap::new() };
        assert(r@ =~= Map::<Seq<char>, Seq<char>>::empty());
        r
    }

    /// Assigns a tenant to a node.
    pub fn assign(&mut self, tenant_id: &str, node_id: &str)
        requires
            old(self).wf(),
        ensures
            final(self).wf(),
            final(self)@ == old(self)@.insert(tenant_id@, node_id@),
    {
        self.assignments.insert(tenant_id, node_id.to_owned());
        assert(self@ =~= old(self)@.insert(tenant_id@, node_id@));
    }

    /// The node that a tenant is assigned to.
    pub fn owner_of(&self, tenant_id: &str) -> (r: Option<String>)
        requires
            self.wf(),
        ensures
            r is Some <==> self@.contains_key(tenant_id@),
            r matches Some(n) ==> n@ == self@[tenant_id@],
    {
        match self.assignments.get(tenant_id) {
            None => None,
            Some(n) => Some(n.clone()),
        }
    }

    /// Whether a tenant is this node's own: assigned to it, or to none.
    pub fn is_local(&self, tenant_id: &str, local_id: &str) -> (r: bool)
        requires
            self.wf(),
        ensures
            r == owned_by(self@, tenant_id@, local_id@),
    {
        match self.assignments.get(tenant_id) {
            None => true,
            Some(n) => text::same_text(n.as_str(), local_id),
        }
    }
}

/// A node that is alone owns every tenant.
pub proof fn law_single_node_owns_all(tenant: Seq<char>, node: Seq<char>)
    ensures
        owned_by(Map::empty(), tenant, node),
{
}

/// An assigned tenant belongs to that node and to no other.
pub proof fn law_assigned_once(
    m: Map<Seq<char>, Seq<char>>,
    tenant: Seq<char>,
    node: Seq<char>,
    other: Seq<char>,
)
    ensures
        owned_by(m.insert(tenant, node), tenant, other) <==> other == node,
{
}

/// A tenant that is assigned to no node is every node's own, whoever else is assigned,
/// and an assignment says nothing of other tenants.
pub proof fn law_unassigned_is_local(
    m: Map<Seq<char>, Seq<char>>,
    tenant: Seq<char>,
    node: Seq<char>,
    other: Seq<char>,
    elsewhere: Seq<char>,
)
    ensures
        !m.contains_key(tenant) ==> owned_by(m, tenant, node),
        m.contains_key(tenant) ==> (owned_by(m, tenant, node) <==> m[tenant] == node),
        other != tenant ==> (owned_by(m.insert(other, elsewhere), tenant, node) <==> owned_by(
            m,
            tenant,
            node,
        )),
{
}

} // verus!
