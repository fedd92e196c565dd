//! Weighted fair sharing of worker slots among tenants.
//!
//! Times, tokens and virtual finish times are fractions. They are kept here as
//! bit patterns, which are compared as the numbers that they stand for;
//! computing with them is left to the caller.

use vstd::prelude::*;

use crate::fraction;
use crate::tenant::enqueue;
use crate::tenant_map::TenantMap;
use crate::text;

verus! {

/// What a tenant may use of the workers.
#[derive(Debug)]
pub struct TenantPolicy {
    pub tenant_id: String,
    pub weight: u32,
    pub max_inflight: usize,
    pub burst_tokens: u32,
    pub rate_per_sec: u32,
}

/// A share policy as a mathematical value.
#[verifier::ext_equal]
pub struct SharePolicy {
    pub tenant_id: Seq<char>,
    pub weight: u32,
    pub max_inflight: usize,
    pub burst_tokens: u32,
    pub rate_per_sec: u32,
}

impl View for TenantPolicy {
    type V = SharePolicy;

    open spec fn view(&self) -> SharePolicy {
        SharePolicy {
            tenant_id: self.tenant_id@,
            weight: self.weight,
            max_inflight: self.max_inflight,
            burst_tokens: self.burst_tokens,
            rate_per_sec: self.rate_per_sec,
        }
    }
}

impl Clone for TenantPolicy {
    fn clone(&self) -> (r: Self)
        ensures
            r@ == self@,
    {
        TenantPolicy {
            tenant_id: self.tenant_id.clone(),
            weight: self.weight,
            max_inflight: self.max_inflight,
            burst_tokens: self.burst_tokens,
            rate_per_sec: self.rate_per_sec,
        }
    }
}

/// The shares of the standard tier.
pub open spec fn standard_share(id: Seq<char>) -> SharePolicy {
    SharePolicy {
        tenant_id: id,
        weight: 10,
        max_inflight: 500,
        burst_tokens: 100,
        rate_per_sec: 100,
    }
}

/// The shares of the premium tier.
pub open spec fn premium_share(id: Seq<char>) -> SharePolicy {
    SharePolicy {
        tenant_id: id,
        weight: 50,
        max_inflight: 5000,
        burst_tokens: 1000,
        rate_per_sec: 1000,
    }
}

impl TenantPolicy {
    /// The shares of the standard tier.
    pub fn standard(id: &str) -> (r: Self)
        ensures
            r@ == standard_share(id@),
    {
        TenantPolicy {
            tenant_id: id.to_owned(),
            weight: 10,
            max_inflight: 500,
            burst_tokens: 100,
            rate_per_sec: 100,
        }
    }

    /// The shares of the premium tier.
    pub fn premium(id: &str) -> (r: Self)
        ensures
            r@ == premium_share(id@),
    {
        TenantPolicy {
            tenant_id: id.to_owned(),
            weight: 50,
            max_inflight: 5000,
            burst_tokens: 1000,
            rate_per_sec: 1000,
        }
    }
}

/// Where a tenant stands.
#[derive(Debug)]
pub struct TenantState {
    pub policy: TenantPolicy,
    /// The bit pattern of the tokens in the bucket.
    pub tokens: u64,
    pub inflight: usize,
    pub paused: bool,
    /// The bit pattern of the virtual finish time.
    pub finish: u64,
    /// When tokens were last added, in ticks of the caller's clock.
    pub last_refill: u64,
    /// When the tenant was registered, in ticks of the caller's clock.
    pub created_at: u64,
}

/// Where a tenant stands, as a mathematical value.
#[verifier::ext_equal]
pub struct Standing {
    pub policy: SharePolicy,
    pub tokens: u64,
    pub inflight: usize,
    pub paused: bool,
    pub finish: u64,
    pub last_refill: u64,
    pub created_at: u64,
}

impl View for TenantState {
    type V = Standing;

    open spec fn view(&self) -> Standing {
        Standing {
            policy: self.policy@,
            tokens: self.tokens,
            inflight: self.inflight,
            paused: self.paused,
            finish: self.finish,
            last_refill: self.last_refill,
            created_at: self.created_at,
        }
    }
}

impl Clone for TenantState {
    fn clone(&self) -> (r: Self)
        ensures
            r@ == self@,
    {
        TenantState {
            policy: self.policy.clone(),
            tokens: self.tokens,
            inflight: self.inflight,
            paused: self.paused,
            finish: self.finish,
            last_refill: self.last_refill,
            created_at: self.created_at,
        }
    }
}

/// A tenant that has just been registered: a full bucket, and nothing else.
pub open spec fn newcomer(policy: SharePolicy, full: u64, now: u64) -> Standing {
    Standing {
        policy,
        tokens: full,
        inflight: 0,
        paused: false,
        finish: 0,
        last_refill: now,
        created_at: now,
    }
}

/// The tenant may get slots.
pub open spec fn eligible(s: Standing) -> bool {
    !s.paused && s.inflight < s.policy.max_inflight
}

/// The last round that virtual time counts: further rounds round back to it.
pub const LAST_ROUND: u64 = 0x20_0000_0000_0000;

/// Virtual time after a round.
pub open spec fn next_round(t: u64) -> u64 {
    if t < LAST_ROUND {
        (t + 1) as u64
    } else {
        t
    }
}

/// The scheduler: where the tenants stand, and the rounds so far.
pub struct WFQScheduler {
    tenants: TenantMap<TenantState>,
    virtual_time: u64,
}

/// The scheduler as a mathematical value.
#[verifier::ext_equal]
pub struct SchedulerView {
    pub tenants: Map<Seq<char>, Standing>,
    pub virtual_time: u64,
}

/// Standings as mathematical values.
pub open spec fn standings(m: Map<Seq<char>, TenantState>) -> Map<Seq<char>, Standing> {
    m.map_values(|s: TenantState| s@)
}

impl View for WFQScheduler {
    type V = SchedulerView;

    closed spec fn view(&self) -> SchedulerView {
        SchedulerView { tenants: standings(self.tenants@), virtual_time: self.virtual_time }
    }
}

/// A tenant that may get slots in this round, with what its share is computed
/// from.
#[derive(Debug)]
pub struct Candidate {
    pub tenant_id: String,
    pub weight: u32,
    pub tokens: u64,
    pub finish: u64,
    pub last_refill: u64,
    pub rate_per_sec: u32,
    pub burst_tokens: u32,
}

/// The candidate is this tenant as it stands.
pub open spec fn is_candidate(c: Candidate, name: Seq<char>, s: Standing) -> bool {
    &&& c.tenant_id@ == name
    &&& c.weight == s.policy.weight
    &&& c.tokens == s.tokens
    &&& c.finish == s.finish
    &&& c.last_refill == s.last_refill
    &&& c.rate_per_sec == s.policy.rate_per_sec
    &&& c.burst_tokens == s.policy.burst_tokens
}

/// What a tenant asks for in a round: its share by weight, and what its tokens
/// allow.
#[derive(Debug)]
pub struct Offer {
    pub tenant_id: String,
    pub raw_slots: usize,
    pub token_cap: usize,
}

/// An offer as a mathematical value.
#[verifier::ext_equal]
pub struct OfferView {
    pub tenant_id: Seq<char>,
    pub raw_slots: nat,
    pub token_cap: nat,
}

/// Offers as mathematical values.
pub open spec fn offers_view(v: Seq<Offer>) -> Seq<OfferView> {
    v.map_values(
        |o: Offer|
            OfferView {
                tenant_id: o.tenant_id@,
                raw_slots: o.raw_slots as nat,
                token_cap: o.token_cap as nat,
            },
    )
}

/// Slots that a tenant got: `slots` against its tokens and its turn, `extra`
/// that nobody else took.
#[derive(Debug)]
pub struct Allocation {
    pub tenant_id: String,
    pub slots: usize,
    pub extra: usize,
}

/// An allocation as a mathematical value.
#[verifier::ext_equal]
pub struct AllocationView {
    pub tenant_id: Seq<char>,
    pub slots: nat,
    pub extra: nat,
}

/// Allocations as mathematical values.
pub open spec fn allocations_view(v: Seq<Allocation>) -> Seq<AllocationView> {
    v.map_values(
        |a: Allocation|
            AllocationView {
                tenant_id: a.tenant_id@,
                slots: a.slots as nat,
                extra: a.extra as nat,
            },
    )
}

/// The smallest of three numbers.
pub open spec fn least3(a: nat, b: nat, c: nat) -> nat {
    let m = if a <= b {
        a
    } else {
        b
    };
    if m <= c {
        m
    } else {
        c
    }
}

/// The slots used up by the offers, taken in their order.
pub open spec fn used(total: nat, os: Seq<OfferView>) -> nat
    decreases os.len(),
{
    if os.len() == 0 {
        0
    } else {
        let before = used(total, os.drop_last());
        before + least3(os.last().raw_slots, os.last().token_cap, (total - before) as nat)
    }
}

/// What the last of the offers gets.
pub open spec fn last_share(total: nat, os: Seq<OfferView>) -> nat {
    least3(
        os.last().raw_slots,
        os.last().token_cap,
        (total - used(total, os.drop_last())) as nat,
    )
}

/// What each offer gets in its turn; offers that get nothing are left out.
pub open spec fn turns(total: nat, os: Seq<OfferView>) -> Seq<AllocationView>
    decreases os.len(),
{
    if os.len() == 0 {
        Seq::empty()
    } else {
        let before = turns(total, os.drop_last());
        let n = last_share(total, os);
        if n == 0 {
            before
        } else {
            before.push(AllocationView { tenant_id: os.last().tenant_id, slots: n, extra: 0 })
        }
    }
}

/// The allocations of a round: each offer in its turn, and what is left over to
/// the first.
pub open spec fn allotted(total: nat, os: Seq<OfferView>) -> Seq<AllocationView> {
    let ts = turns(total, os);
    if ts.len() == 0 {
        ts
    } else {
        ts.update(0, AllocationView { extra: (total - used(total, os)) as nat, ..ts[0] })
    }
}

/// The standings after slots were handed out.
pub open spec fn after_alloc(
    m: Map<Seq<char>, Standing>,
    allocs: Seq<AllocationView>,
) -> Map<Seq<char>, Standing>
    decreases allocs.len(),
{
    if allocs.len() == 0 {
        m
    } else {
        busier(after_alloc(m, allocs.drop_last()), allocs.last().tenant_id, allocs.last().slots
            + allocs.last().extra)
    }
}

/// The standings with more slots in use by a tenant, if there is such a tenant.
pub open spec fn busier(m: Map<Seq<char>, Standing>, name: Seq<char>, n: nat) -> Map<
    Seq<char>,
    Standing,
> {
    if m.contains_key(name) {
        m.insert(name, Standing { inflight: (m[name].inflight + n) as usize, ..m[name] })
    } else {
        m
    }
}

/// The standings with fewer slots in use by a tenant, if there is such a
/// tenant; none gives back more than it has.
pub open spec fn freer(m: Map<Seq<char>, Standing>, name: Seq<char>, n: usize) -> Map<
    Seq<char>,
    Standing,
> {
    if m.contains_key(name) {
        m.insert(
            name,
            Standing {
                inflight: if m[name].inflight >= n {
                    (m[name].inflight - n) as usize
                } else {
                    0
                },
                ..m[name]
            },
        )
    } else {
        m
    }
}

/// All numbers of slots stay in range through a round.
pub open spec fn slots_fit(m: Map<Seq<char>, Standing>, total: nat) -> bool {
    forall|name: Seq<char>| #[trigger] m.contains_key(name) ==> m[name].inflight + total
        <= usize::MAX
}

/// The weights of the eligible tenants among the first `n` names, together.
pub open spec fn weight_sum(m: Map<Seq<char>, Standing>, names: Seq<Seq<char>>) -> nat
    decreases names.len(),
{
    if names.len() == 0 {
        0
    } else {
        weight_sum(m, names.drop_last()) + (if eligible(m[names.last()]) {
            m[names.last()].policy.weight as nat
        } else {
            0
        })
    }
}

/// Finish times ascend.
pub open spec fn in_turn(v: Seq<Candidate>) -> bool {
    forall|i: int, j: int|
        0 <= i <= j < v.len() ==> fraction::rank((#[trigger] v[i]).finish) <= fraction::rank(
            (#[trigger] v[j]).finish,
        )
}

/// An eligible tenant has a weight.
pub open spec fn has_weight(m: Map<Seq<char>, Standing>) -> bool {
    exists|name: Seq<char>| #[trigger]
        m.contains_key(name) && eligible(m[name]) && m[name].policy.weight > 0
}

/// The tenant takes part in a round of so many slots.
pub open spec fn takes_part(m: Map<Seq<char>, Standing>, total: nat, name: Seq<char>) -> bool {
    total > 0 && has_weight(m) && m.contains_key(name) && eligible(m[name])
}

/// Those who take part in a round, each once, by their finish times: who finishes
/// first is in front.
pub open spec fn turn_order(
    m: Map<Seq<char>, Standing>,
    total: nat,
    names: Seq<Seq<char>>,
) -> bool {
    &&& names.no_duplicates()
    &&& forall|name: Seq<char>| #[trigger] names.contains(name) <==> takes_part(m, total, name)
    &&& forall|i: int, j: int|
        0 <= i <= j < names.len() ==> fraction::rank(m[#[trigger] names[i]].finish)
            <= fraction::rank(m[#[trigger] names[j]].finish)
}

/// The names of candidates.
pub open spec fn candidate_names(v: Seq<Candidate>) -> Seq<Seq<char>> {
    v.map_values(|c: Candidate| c.tenant_id@)
}

/// The names of those who make offers.
pub open spec fn offer_names(os: Seq<OfferView>) -> Seq<Seq<char>> {
    os.map_values(|o: OfferView| o.tenant_id)
}

impl WFQScheduler {
    /// The map of tenants is in order, each tenant stands under its own name,
    /// and the rounds are in range.
    pub closed spec fn wf(&self) -> bool {
        &&& self.tenants.wf()
        &&& forall|k: Seq<char>| #[trigger]
            self.tenants@.contains_key(k) ==> self.tenants@[k]@.policy.tenant_id == k
        &&& self.virtual_time <= LAST_ROUND
    }

    /// Each tenant stands under its own name.
    pub proof fn lemma_keyed(&self, name: Seq<char>)
        requires
            self.wf(),
            self@.tenants.contains_key(name),
        ensures
            self@.tenants[name].policy.tenant_id == name,
    {
        assert(self.tenants@.contains_key(name));
    }

    /// The tenants in the order in which they are walked.
    pub closed spec fn order(&self) -> Seq<Seq<char>> {
        self.tenants.order()
    }

    /// The tenants that are walked are those that are known, each once.
    pub proof fn lemma_order(&self)
        requires
            self.wf(),
        ensures
            self.order().no_duplicates(),
            forall|k: Seq<char>| #[trigger] self@.tenants.contains_key(k) <==> self.order().contains(
                k,
            ),
            forall|i: int|
                0 <= i < self.order().len() ==> self@.tenants.contains_key(#[trigger] self.order()[i]),
    {
        self.tenants.lemma_order();
        assert forall|k: Seq<char>| #[trigger] self@.tenants.contains_key(k) <==> self.order().contains(
            k,
        ) by {
            assert(self@.tenants.contains_key(k) == self.tenants@.contains_key(k));
        }
        assert forall|i: int| 0 <= i < self.order().len() implies self@.tenants.contains_key(
            #[trigger] self.order()[i],
        ) by {
            assert(self.tenants@.contains_key(self.order()[i]));
        }
    }

    /// A scheduler without tenants.
    pub fn new() -> (r: Self)
        ensures
            r.wf(),
            r@ == (SchedulerView { tenants: Map::empty(), virtual_time: 0 }),
            r.order() == Seq::<Seq<char>>::empty(),
    {
        let r = WFQScheduler { tenants: TenantMap::new(), virtual_time: 0 };
        assert(r@.tenants =~= Map::<Seq<char>, Standing>::empty());
        r
    }

    /// Virtual time: the rounds so far.
    pub fn virtual_time(&self) -> (r: u64)
        ensures
            r == self@.virtual_time,
    {
        self.virtual_time
    }

    /// Puts a tenant's standing in place of what was there.
    fn put(&mut self, name: &str, state: TenantState)
        requires
            old(self).wf(),
            state@.policy.tenant_id == name@,
        ensures
            final(self).wf(),
            final(self)@ == (SchedulerView {
                tenants: old(self)@.tenants.insert(name@, state@),
                ..old(self)@
            }),
            final(self).order() == (if old(self)@.tenants.contains_key(name@) {
                old(self).order()
            } else {
                old(self).order().push(name@)
            }),
    {
        assert(self@.tenants.contains_key(name@) == self.tenants@.contains_key(name@));
        self.tenants.insert(name, state);
        assert(self@.tenants =~= old(self)@.tenants.insert(name@, state@));
    }

    /// Registers a tenant anew; `full` is the bit pattern of a full bucket.
    pub fn register(&mut self, policy: TenantPolicy, full: u64, now: u64)
        requires
            old(self).wf(),
        ensures
            final(self).wf(),
            final(self)@ == (SchedulerView {
                tenants: old(self)@.tenants.insert(
                    policy@.tenant_id,
                    newcomer(policy@, full, now),
                ),
                ..old(self)@
            }),
    {
        let name = policy.tenant_id.clone();
        let state = TenantState {
            policy,
            tokens: full,
            inflight: 0,
            paused: false,
            finish: 0,
            last_refill: now,
            created_at: now,
        };
        assert(state@ =~= newcomer(policy@, full, now));
        self.put(name.as_str(), state);
    }

    /// Removes a tenant.
    pub fn deregister(&mut self, tenant_id: &str)
        requires
            old(self).wf(),
        ensures
            final(self).wf(),
            final(self)@ == (SchedulerView {
                tenants: old(self)@.tenants.remove(tenant_id@),
                ..old(self)@
            }),
    {
        self.tenants.remove(tenant_id);
        assert(self@.tenants =~= old(self)@.tenants.remove(tenant_id@));
    }

    /// Gives a tenant another policy and leaves the rest of its standing;
    /// registers it where it is not known.
    pub fn update_policy(&mut self, policy: TenantPolicy, full: u64, now: u64)
        requires
            old(self).wf(),
        ensures
            final(self).wf(),
            final(self)@ == (SchedulerView {
                tenants: repoliced(old(self)@.tenants, policy@, full, now),
                ..old(self)@
            }),
    {
        let found = match self.tenants.get(policy.tenant_id.as_str()) {
            None => None,
            Some(s) => Some(s.clone()),
        };
        match found {
            None => self.register(policy, full, now),
            Some(state) => {
                let mut state = state;
                let name = policy.tenant_id.clone();
                state.policy = policy;
                self.put(name.as_str(), state);
            },
        }
    }

    /// Whether the tenants' weights can be added up.
    pub fn weights_fit(&self) -> (r: bool)
        requires
            self.wf(),
        ensures
            r == (weight_sum(self@.tenants, self.order()) <= u32::MAX),
    {
        let n: usize = self.tenants.len();
        let mut sum: u64 = 0;
        let mut i: usize = 0;
        assert(self.order().take(0) =~= Seq::<Seq<char>>::empty());
        while i < n
            invariant
                self.wf(),
                0 <= i <= n,
                n == self.order().len(),
                sum == weight_sum(self@.tenants, self.order().take(i as int)),
                sum <= u32::MAX,
            decreases n - i,
        {
            let state = self.tenants.value_at(i);
            proof {
                self.tenants.lemma_order();
                assert(self.order().take(i + 1).drop_last() =~= self.order().take(i as int));
                assert(self.order().take(i + 1).last() == self.order()[i as int]);
                assert(self@.tenants[self.order()[i as int]] == state@);
            }
            if !state.paused && state.inflight < state.policy.max_inflight {
                sum = sum + state.policy.weight as u64;
                if sum > u32::MAX as u64 {
                    proof {
                        lemma_weight_monotonic(self@.tenants, self.order(), i + 1);
                    }
                    return false;
                }
            }
            i = i + 1;
        }
        assert(self.order().take(n as int) =~= self.order());
        true
    }

    /// The total weight of the eligible tenants.
    pub fn total_weight(&self) -> (r: u32)
        requires
            self.wf(),
            weight_sum(self@.tenants, self.order()) <= u32::MAX,
        ensures
            r == weight_sum(self@.tenants, self.order()),
    {
        let n: usize = self.tenants.len();
        let mut sum: u32 = 0;
        let mut i: usize = 0;
        assert(self.order().take(0) =~= Seq::<Seq<char>>::empty());
        while i < n
            invariant
                self.wf(),
                0 <= i <= n,
                n == self.order().len(),
                weight_sum(self@.tenants, self.order()) <= u32::MAX,
                sum == weight_sum(self@.tenants, self.order().take(i as int)),
            decreases n - i,
        {
            let state = self.tenants.value_at(i);
            proof {
                self.tenants.lemma_order();
                assert(self.order().take(i + 1).drop_last() =~= self.order().take(i as int));
                assert(self.order().take(i + 1).last() == self.order()[i as int]);
                assert(self@.tenants[self.order()[i as int]] == state@);
                lemma_weight_monotonic(self@.tenants, self.order(), i + 1);
            }
            if !state.paused && state.inflight < state.policy.max_inflight {
                sum = sum + state.policy.weight;
            }
            i = i + 1;
        }
        assert(self.order().take(n as int) =~= self.order());
        sum
    }

    /// The tenants that may get slots in a round, in the order of their finish
    /// times, those that finish first in front. There are none where there is
    /// no slot or no weight.
    pub fn candidates(&self, total_slots: usize) -> (r: Vec<Candidate>)
        requires
            self.wf(),
            weight_sum(self@.tenants, self.order()) <= u32::MAX,
        ensures
            turn_order(self@.tenants, total_slots as nat, candidate_names(r@)),
            forall|i: int|
                0 <= i < r@.len() ==> is_candidate(
                    #[trigger] r@[i],
                    r@[i].tenant_id@,
                    self@.tenants[r@[i].tenant_id@],
                ),
    {
        let mut out: Vec<Candidate> = Vec::new();
        proof {
            self.lemma_order();
            lemma_has_weight(self@.tenants, self.order());
        }
        if total_slots == 0 || self.total_weight() == 0 {
            assert(candidate_names(out@).len() == 0);
            return out;
        }
        let n: usize = self.tenants.len();
        let mut i: usize = 0;
        while i < n
            invariant
                self.wf(),
                0 <= i <= n,
                n == self.order().len(),
                in_turn(out@),
                forall|k: int|
                    0 <= k < out@.len() ==> self@.tenants.contains_key(
                        (#[trigger] out@[k]).tenant_id@,
                    ) && eligible(self@.tenants[out@[k].tenant_id@]) && is_candidate(
                        out@[k],
                        out@[k].tenant_id@,
                        self@.tenants[out@[k].tenant_id@],
                    ) && self.order().take(i as int).contains(out@[k].tenant_id@),
                forall|k: int, l: int|
                    0 <= k < l < out@.len() ==> (#[trigger] out@[k]).tenant_id@
                        != (#[trigger] out@[l]).tenant_id@,
                forall|k: int|
                    0 <= k < i && eligible(self@.tenants[#[trigger] self.order()[k]]) ==> listed(
                        out@,
                        self.order()[k],
                    ),
            decreases n - i,
        {
            let state = self.tenants.value_at(i);
            let ghost name = self.order()[i as int];
            proof {
                self.tenants.lemma_order();
                assert(self@.tenants.contains_key(name));
                assert(self@.tenants[name] == state@);
            }
            let ghost before = out@;
            let ghost seen = self.order().take(i as int);
            let ghost now_seen = self.order().take(i + 1);
            assert(now_seen =~= seen.push(name));
            if !state.paused && state.inflight < state.policy.max_inflight {
                let c = Candidate {
                    tenant_id: self.tenants.name_at(i).to_owned(),
                    weight: state.policy.weight,
                    tokens: state.tokens,
                    finish: state.finish,
                    last_refill: state.last_refill,
                    rate_per_sec: state.policy.rate_per_sec,
                    burst_tokens: state.policy.burst_tokens,
                };
                assert(is_candidate(c, name, state@));
                let at: usize = turn_of(&out, c.finish);
                let ghost cg = c;
                out.insert(at, c);
                assert(out@ == before.insert(at as int, cg));
                assert(!seen.contains(name)) by {
                    if seen.contains(name) {
                        let k = choose|k: int| 0 <= k < seen.len() && seen[k] == name;
                        assert(self.order()[k] == self.order()[i as int]);
                    }
                }
                assert forall|k: int| 0 <= k < out@.len() implies self@.tenants.contains_key(
                    (#[trigger] out@[k]).tenant_id@,
                ) && eligible(self@.tenants[out@[k].tenant_id@]) && is_candidate(
                    out@[k],
                    out@[k].tenant_id@,
                    self@.tenants[out@[k].tenant_id@],
                ) && now_seen.contains(out@[k].tenant_id@) by {
                    if k < at {
                        assert(out@[k] == before[k]);
                        lemma_push_contains(seen, name, before[k].tenant_id@);
                    } else if k == at {
                        assert(now_seen[i as int] == name);
                    } else {
                        assert(out@[k] == before[k - 1]);
                        lemma_push_contains(seen, name, before[k - 1].tenant_id@);
                    }
                }
                assert forall|k: int, l: int| 0 <= k < l < out@.len() implies (
                #[trigger] out@[k]).tenant_id@ != (#[trigger] out@[l]).tenant_id@ by {
                    let a = if k < at {
                        k
                    } else {
                        k - 1
                    };
                    let b = if l < at {
                        l
                    } else {
                        l - 1
                    };
                    if k != at && l != at {
                        assert(out@[k] == before[a] && out@[l] == before[b]);
                    } else if k == at {
                        assert(out@[l] == before[b]);
                        assert(seen.contains(before[b].tenant_id@));
                    } else {
                        assert(out@[k] == before[a]);
                        assert(seen.contains(before[a].tenant_id@));
                    }
                }
                assert forall|k: int|
                    0 <= k < i + 1 && eligible(
                        self@.tenants[#[trigger] self.order()[k]],
                    ) implies listed(out@, self.order()[k]) by {
                    if k < i {
                        assert(listed(before, self.order()[k]));
                        let m = choose|m: int|
                            0 <= m < before.len() && (#[trigger] before[m]).tenant_id@
                                == self.order()[k];
                        if m < at {
                            assert(out@[m] == before[m]);
                        } else {
                            assert(out@[m + 1] == before[m]);
                        }
                    } else {
                        assert(out@[at as int].tenant_id@ == name);
                    }
                }
            } else {
                assert forall|k: int| 0 <= k < out@.len() implies now_seen.contains(
                    (#[trigger] out@[k]).tenant_id@,
                ) by {
                    lemma_push_contains(seen, name, out@[k].tenant_id@);
                }
            }
            i = i + 1;
        }
        proof {
            self.tenants.lemma_order();
            assert forall|name: Seq<char>| #[trigger]
                self@.tenants.contains_key(name) && eligible(
                    self@.tenants[name],
                ) implies listed(out@, name) by {
                assert(self.tenants@.contains_key(name));
                assert(self.order().contains(name));
                let k = choose|k: int| 0 <= k < self.order().len() && self.order()[k] == name;
                assert(eligible(self@.tenants[self.order()[k]]));
            }
            lemma_turn_order(self@.tenants, total_slots as nat, out@);
        }
        out
    }

    /// Whether an eligible tenant has a weight.
    fn any_weight(&self) -> (r: bool)
        requires
            self.wf(),
        ensures
            r == has_weight(self@.tenants),
    {
        proof {
            self.lemma_order();
        }
        let n: usize = self.tenants.len();
        let mut i: usize = 0;
        while i < n
            invariant
                self.wf(),
                0 <= i <= n,
                n == self.order().len(),
                forall|k: int|
                    0 <= k < i ==> {
                        let s = self@.tenants[#[trigger] self.order()[k]];
                        !(eligible(s) && s.policy.weight > 0)
                    },
            decreases n - i,
        {
            let state = self.tenants.value_at(i);
            proof {
                self.tenants.lemma_order();
                assert(self@.tenants.contains_key(self.order()[i as int]));
                assert(self@.tenants[self.order()[i as int]] == state@);
            }
            if !state.paused && state.inflight < state.policy.max_inflight && state.policy.weight
                > 0 {
                return true;
            }
            i = i + 1;
        }
        proof {
            self.lemma_order();
            if has_weight(self@.tenants) {
                let name = choose|name: Seq<char>| #[trigger]
                    self@.tenants.contains_key(name) && eligible(self@.tenants[name])
                        && self@.tenants[name].policy.weight > 0;
                assert(self.order().contains(name));
                let k = choose|k: int| 0 <= k < self.order().len() && self.order()[k] == name;
                assert(eligible(self@.tenants[self.order()[k]]));
            }
        }
        false
    }

    /// Whether the offers are those of a round: all who take part make one each,
    /// in the order of their finish times.
    pub fn offers_in_turn(&self, total_slots: usize, offers: &Vec<Offer>) -> (r: bool)
        requires
            self.wf(),
        ensures
            r == turn_order(
                self@.tenants,
                total_slots as nat,
                offer_names(offers_view(offers@)),
            ),
    {
        let ghost m = self@.tenants;
        let ghost names = offer_names(offers_view(offers@));
        let ghost total = total_slots as nat;
        if total_slots == 0 || !self.any_weight() {
            proof {
                if names.len() > 0 {
                    assert(names.contains(names[0]));
                }
            }
            return offers.len() == 0;
        }
        let mut i: usize = 0;
        let mut last: i64 = i64::MIN;
        while i < offers.len()
            invariant
                self.wf(),
                m == self@.tenants,
                names == offer_names(offers_view(offers@)),
                total == total_slots && total > 0 && has_weight(m),
                0 <= i <= offers@.len(),
                fair_so_far(m, names.take(i as int)),
                i > 0 ==> last == fraction::rank(m[names[i - 1]].finish),
                i == 0 ==> last == i64::MIN,
            decreases offers@.len() - i,
        {
            let offer = &offers[i];
            let ghost name = names[i as int];
            assert(name == offer.tenant_id@);
            assert(names.contains(name));
            let state = match self.tenants.get(offer.tenant_id.as_str()) {
                None => {
                    assert(!m.contains_key(name));
                    return false;
                },
                Some(s) => s,
            };
            assert(m.contains_key(name) && m[name] == state@);
            if state.paused || state.inflight >= state.policy.max_inflight {
                return false;
            }
            let place: i64 = fraction::rank_of(state.finish);
            if i > 0 && place < last {
                assert(fraction::rank(m[names[i - 1]].finish) > fraction::rank(
                    m[names[i as int]].finish,
                ));
                return false;
            }
            let mut k: usize = 0;
            while k < i
                invariant
                    0 <= k <= i < offers@.len(),
                    names == offer_names(offers_view(offers@)),
                    offer.tenant_id@ == names[i as int],
                    forall|j: int| 0 <= j < k ==> #[trigger] names[j] != names[i as int],
                decreases i - k,
            {
                assert(names[k as int] == offers@[k as int].tenant_id@);
                if text::same_text(offers[k].tenant_id.as_str(), offer.tenant_id.as_str()) {
                    assert(names[k as int] == names[i as int]);
                    return false;
                }
                k = k + 1;
            }
            proof {
                lemma_fair_step(m, names, i as int);
            }
            last = place;
            i = i + 1;
        }
        assert(names.take(i as int) =~= names);
        let n: usize = self.tenants.len();
        let mut j: usize = 0;
        while j < n
            invariant
                self.wf(),
                m == self@.tenants,
                names == offer_names(offers_view(offers@)),
                total == total_slots && total > 0 && has_weight(m),
                0 <= j <= n,
                n == self.order().len(),
                forall|k: int|
                    0 <= k < j && eligible(m[#[trigger] self.order()[k]]) ==> names.contains(
                        self.order()[k],
                    ),
            decreases n - j,
        {
            let state = self.tenants.value_at(j);
            let ghost name = self.order()[j as int];
            proof {
                self.tenants.lemma_order();
                self.lemma_order();
                assert(m[name] == state@);
            }
            if !state.paused && state.inflight < state.policy.max_inflight {
                let who = self.tenants.name_at(j);
                let mut k: usize = 0;
                let mut found = false;
                while k < offers.len() && !found
                    invariant
                        0 <= k <= offers@.len(),
                        names == offer_names(offers_view(offers@)),
                        who@ == name,
                        found ==> names.contains(name),
                        !found ==> forall|l: int| 0 <= l < k ==> #[trigger] names[l] != name,
                    decreases offers@.len() - k + (if found { 0int } else { 1 }),
                {
                    assert(names[k as int] == offers@[k as int].tenant_id@);
                    if text::same_text(offers[k].tenant_id.as_str(), who) {
                        assert(names[k as int] == name);
                        found = true;
                    } else {
                        k = k + 1;
                    }
                }
                if !found {
                    assert(!names.contains(name));
                    assert(takes_part(m, total, name));
                    return false;
                }
            }
            j = j + 1;
        }
        proof {
            self.lemma_order();
            assert forall|name: Seq<char>| #[trigger] names.contains(name) <==> takes_part(
                m,
                total,
                name,
            ) by {
                if names.contains(name) {
                    let k = choose|k: int| 0 <= k < names.len() && names[k] == name;
                    assert(m.contains_key(names[k]));
                }
                if takes_part(m, total, name) {
                    assert(self.order().contains(name));
                    let k = choose|k: int| 0 <= k < self.order().len() && self.order()[k] == name;
                    assert(eligible(m[self.order()[k]]));
                }
            }
        }
        true
    }

    /// Hands out the slots of a round to the offers of those who take part, in
    /// their order: each gets the smallest of its share, its tokens and what is
    /// left, and what is left in the end goes to the first that got any. The
    /// round counts only where there was a slot and an offer.
    pub fn schedule(&mut self, total_slots: usize, offers: &Vec<Offer>) -> (r: Vec<Allocation>)
        requires
            old(self).wf(),
            slots_fit(old(self)@.tenants, total_slots as nat),
            turn_order(
                old(self)@.tenants,
                total_slots as nat,
                offer_names(offers_view(offers@)),
            ),
        ensures
            final(self).wf(),
            total_slots == 0 || offers@.len() == 0 ==> r@.len() == 0 && final(self)@ == old(
                self,
            )@,
            total_slots > 0 && offers@.len() > 0 ==> {
                &&& allocations_view(r@) == allotted(total_slots as nat, offers_view(offers@))
                &&& final(self)@ == (SchedulerView {
                    tenants: after_alloc(old(self)@.tenants, allocations_view(r@)),
                    virtual_time: next_round(old(self)@.virtual_time),
                })
            },
    {
        let mut allocations: Vec<Allocation> = Vec::new();
        if total_slots == 0 || offers.len() == 0 {
            return allocations;
        }
        let ghost os = offers_view(offers@);
        let ghost total = total_slots as nat;
        assert(offers_distinct(os)) by {
            assert forall|i: int, j: int| 0 <= i < j < os.len() implies (#[trigger] os[i]).tenant_id
                != (#[trigger] os[j]).tenant_id by {
                assert(offer_names(os)[i] != offer_names(os)[j]);
            }
        }
        let mut remaining: usize = total_slots;
        let mut i: usize = 0;
        assert(os.take(0) =~= Seq::<OfferView>::empty());
        assert(allocations_view(allocations@) =~= Seq::<AllocationView>::empty());
        while i < offers.len()
            invariant
                0 <= i <= offers@.len(),
                os == offers_view(offers@),
                total == total_slots,
                remaining == total - used(total, os.take(i as int)),
                used(total, os.take(i as int)) <= total,
                allocations_view(allocations@) == turns(total, os.take(i as int)),
            decreases offers@.len() - i,
        {
            let offer = &offers[i];
            assert(os[i as int] == (OfferView {
                tenant_id: offer.tenant_id@,
                raw_slots: offer.raw_slots as nat,
                token_cap: offer.token_cap as nat,
            }));
            assert(os.take(i + 1).drop_last() =~= os.take(i as int));
            assert(os.take(i + 1).last() == os[i as int]);
            let mut slots: usize = offer.raw_slots;
            if offer.token_cap < slots {
                slots = offer.token_cap;
            }
            if remaining < slots {
                slots = remaining;
            }
            if slots > 0 {
                let ghost before = allocations_view(allocations@);
                let a = Allocation { tenant_id: offer.tenant_id.clone(), slots, extra: 0 };
                allocations.push(a);
                assert(allocations_view(allocations@) =~= before.push(
                    AllocationView {
                        tenant_id: offer.tenant_id@,
                        slots: slots as nat,
                        extra: 0,
                    },
                ));
                remaining = remaining - slots;
            }
            i = i + 1;
        }
        assert(os.take(i as int) =~= os);
        if allocations.len() > 0 {
            let ghost before = allocations_view(allocations@);
            let first = allocations[0].tenant_id.clone();
            let slots: usize = allocations[0].slots;
            assert(before[0] == (AllocationView {
                tenant_id: first@,
                slots: slots as nat,
                extra: allocations@[0].extra as nat,
            }));
            allocations[0] = Allocation { tenant_id: first, slots, extra: remaining };
            assert(allocations_view(allocations@) =~= before.update(
                0,
                AllocationView { tenant_id: first@, slots: slots as nat, extra: remaining as nat },
            ));
        }
        assert(allocations_view(allocations@) =~= allotted(total, os));
        let ghost want = allotted(total, os);
        proof {
            lemma_turns_distinct(total, os);
            lemma_slots_bounded(total, os);
        }
        let mut k: usize = 0;
        assert(want.take(0) =~= Seq::<AllocationView>::empty());
        while k < allocations.len()
            invariant
                0 <= k <= allocations@.len(),
                self.wf(),
                want == allocations_view(allocations@),
                names_distinct(want),
                forall|j: int|
                    0 <= j < want.len() ==> (#[trigger] want[j]).slots + want[j].extra <= total,
                total == total_slots,
                slots_fit(old(self)@.tenants, total),
                self@ == (SchedulerView {
                    tenants: after_alloc(old(self)@.tenants, want.take(k as int)),
                    virtual_time: old(self)@.virtual_time,
                }),
            decreases allocations@.len() - k,
        {
            let a = &allocations[k];
            assert(want[k as int] == (AllocationView {
                tenant_id: a.tenant_id@,
                slots: a.slots as nat,
                extra: a.extra as nat,
            }));
            assert(want.take(k + 1).drop_last() =~= want.take(k as int));
            assert(want.take(k + 1).last() == want[k as int]);
            proof {
                lemma_untouched_standing(
                    old(self)@.tenants,
                    want.take(k as int),
                    a.tenant_id@,
                );
            }
            let found = match self.tenants.get(a.tenant_id.as_str()) {
                None => None,
                Some(s) => Some(s.clone()),
            };
            assert(self@.tenants.contains_key(a.tenant_id@) == self.tenants@.contains_key(
                a.tenant_id@,
            ));
            if let Some(state) = found {
                let mut state = state;
                assert(old(self)@.tenants.contains_key(a.tenant_id@));
                state.inflight = state.inflight + (a.slots + a.extra);
                self.put(a.tenant_id.as_str(), state);
            }
            k = k + 1;
        }
        assert(want.take(k as int) =~= want);
        if self.virtual_time < LAST_ROUND {
            self.virtual_time = self.virtual_time + 1;
        }
        allocations
    }

    /// Notes a tenant's tokens, and when they were refilled.
    pub fn set_tokens(&mut self, tenant_id: &str, tokens: u64, last_refill: u64)
        requires
            old(self).wf(),
        ensures
            final(self).wf(),
            final(self)@ == (SchedulerView {
                tenants: with_tokens(old(self)@.tenants, tenant_id@, tokens, last_refill),
                ..old(self)@
            }),
    {
        let found = match self.tenants.get(tenant_id) {
            None => None,
            Some(s) => Some(s.clone()),
        };
        assert(self@.tenants.contains_key(tenant_id@) == self.tenants@.contains_key(tenant_id@));
        if let Some(state) = found {
            let mut state = state;
            state.tokens = tokens;
            state.last_refill = last_refill;
            self.put(tenant_id, state);
        }
    }

    /// Notes a tenant's tokens and finish time after its turn.
    pub fn finish_turn(&mut self, tenant_id: &str, tokens: u64, finish: u64)
        requires
            old(self).wf(),
        ensures
            final(self).wf(),
            final(self)@ == (SchedulerView {
                tenants: with_turn(old(self)@.tenants, tenant_id@, tokens, finish),
                ..old(self)@
            }),
    {
        let found = match self.tenants.get(tenant_id) {
            None => None,
            Some(s) => Some(s.clone()),
        };
        assert(self@.tenants.contains_key(tenant_id@) == self.tenants@.contains_key(tenant_id@));
        if let Some(state) = found {
            let mut state = state;
            state.tokens = tokens;
            state.finish = finish;
            self.put(tenant_id, state);
        }
    }

    /// Pauses a tenant or lets it go on; tells whether it is known.
    pub fn set_paused(&mut self, tenant_id: &str, paused: bool) -> (r: Option<()>)
        requires
            old(self).wf(),
        ensures
            final(self).wf(),
            r is Some <==> old(self)@.tenants.contains_key(tenant_id@),
            final(self)@ == (SchedulerView {
                tenants: if r is Some {
                    old(self)@.tenants.insert(
                        tenant_id@,
                        Standing { paused, ..old(self)@.tenants[tenant_id@] },
                    )
                } else {
                    old(self)@.tenants
                },
                ..old(self)@
            }),
    {
        let found = match self.tenants.get(tenant_id) {
            None => None,
            Some(s) => Some(s.clone()),
        };
        assert(self@.tenants.contains_key(tenant_id@) == self.tenants@.contains_key(tenant_id@));
        match found {
            None => None,
            Some(state) => {
                let mut state = state;
                state.paused = paused;
                self.put(tenant_id, state);
                Some(())
            },
        }
    }

    /// Gives slots back; no tenant gives back more than it has.
    pub fn release(&mut self, tenant_id: &str, n: usize)
        requires
            old(self).wf(),
        ensures
            final(self).wf(),
            final(self)@ == (SchedulerView {
                tenants: freer(old(self)@.tenants, tenant_id@, n),
                ..old(self)@
            }),
    {
        let found = match self.tenants.get(tenant_id) {
            None => None,
            Some(s) => Some(s.clone()),
        };
        assert(self@.tenants.contains_key(tenant_id@) == self.tenants@.contains_key(tenant_id@));
        if let Some(state) = found {
            let mut state = state;
            state.inflight = state.inflight.saturating_sub(n);
            self.put(tenant_id, state);
        }
    }

    /// A tenant's policy.
    pub fn policy(&self, tenant_id: &str) -> (r: Option<TenantPolicy>)
        requires
            self.wf(),
        ensures
            r is Some <==> self@.tenants.contains_key(tenant_id@),
            r matches Some(p) ==> p@ == self@.tenants[tenant_id@].policy,
    {
        match self.tenants.get(tenant_id) {
            None => None,
            Some(s) => Some(s.policy.clone()),
        }
    }

    /// The rate from which a tenant's baseline starts.
    pub fn baseline_rate(&self, tenant_id: &str) -> (r: Option<u32>)
        requires
            self.wf(),
        ensures
            r is Some <==> self@.tenants.contains_key(tenant_id@),
            r matches Some(rate) ==> rate == self@.tenants[tenant_id@].policy.rate_per_sec,
    {
        match self.tenants.get(tenant_id) {
            None => None,
            Some(s) => Some(s.policy.rate_per_sec),
        }
    }

    /// Where a tenant stands.
    pub fn tenant_snapshot(&self, id: &str) -> (r: Option<TenantState>)
        requires
            self.wf(),
        ensures
            r is Some <==> self@.tenants.contains_key(id@),
            r matches Some(s) ==> s@ == self@.tenants[id@],
    {
        match self.tenants.get(id) {
            None => None,
            Some(s) => Some(s.clone()),
        }
    }

    /// The tenants, each once, in the order in which they are walked.
    pub fn all_tenant_ids(&self) -> (r: Vec<String>)
        requires
            self.wf(),
        ensures
            enqueue::texts(r@) == self.order(),
            enqueue::texts(r@).no_duplicates(),
            forall|t: Seq<char>| #[trigger]
                self@.tenants.contains_key(t) <==> enqueue::texts(r@).contains(t),
    {
        proof {
            self.tenants.lemma_order();
            assert forall|t: Seq<char>| #[trigger]
                self@.tenants.contains_key(t) <==> self.tenants@.contains_key(t) by {}
        }
        let r = self.tenants.names();
        assert(enqueue::texts(r@) =~= self.order());
        r
    }

    /// Where all tenants stand, in the order in which they are walked.
    pub fn all_snapshots(&self) -> (r: Vec<(String, TenantState)>)
        requires
            self.wf(),
        ensures
            r@.len() == self.order().len(),
            forall|i: int|
                0 <= i < r@.len() ==> (#[trigger] r@[i]).0@ == self.order()[i] && r@[i].1@
                    == self@.tenants[self.order()[i]],
    {
        let mut r: Vec<(String, TenantState)> = Vec::new();
        let n: usize = self.tenants.len();
        let mut i: usize = 0;
        while i < n
            invariant
                self.wf(),
                0 <= i <= n,
                n == self.order().len(),
                r@.len() == i,
                forall|k: int|
                    0 <= k < i ==> (#[trigger] r@[k]).0@ == self.order()[k] && r@[k].1@
                        == self@.tenants[self.order()[k]],
            decreases n - i,
        {
            proof {
                self.tenants.lemma_order();
                assert(self.tenants@.contains_key(self.order()[i as int]));
            }
            r.push((self.tenants.name_at(i).to_owned(), self.tenants.value_at(i).clone()));
            i = i + 1;
        }
        r
    }
}

impl Default for WFQScheduler {
    fn default() -> (r: Self)
        ensures
            r.wf(),
            r@ == (SchedulerView { tenants: Map::empty(), virtual_time: 0 }),
    {
        WFQScheduler::new()
    }
}

/// The standings with a tenant's tokens refilled, if there is such a tenant.
pub open spec fn with_tokens(
    m: Map<Seq<char>, Standing>,
    name: Seq<char>,
    tokens: u64,
    last_refill: u64,
) -> Map<Seq<char>, Standing> {
    if m.contains_key(name) {
        m.insert(name, Standing { tokens, last_refill, ..m[name] })
    } else {
        m
    }
}

/// The standings after a tenant's turn, if there is such a tenant.
pub open spec fn with_turn(
    m: Map<Seq<char>, Standing>,
    name: Seq<char>,
    tokens: u64,
    finish: u64,
) -> Map<Seq<char>, Standing> {
    if m.contains_key(name) {
        m.insert(name, Standing { tokens, finish, ..m[name] })
    } else {
        m
    }
}

/// The standings with another policy for a tenant.
pub open spec fn repoliced(
    m: Map<Seq<char>, Standing>,
    policy: SharePolicy,
    full: u64,
    now: u64,
) -> Map<Seq<char>, Standing> {
    if m.contains_key(policy.tenant_id) {
        m.insert(policy.tenant_id, Standing { policy, ..m[policy.tenant_id] })
    } else {
        m.insert(policy.tenant_id, newcomer(policy, full, now))
    }
}

/// The tenant is among the candidates.
pub open spec fn listed(v: Seq<Candidate>, name: Seq<char>) -> bool {
    exists|i: int| 0 <= i < v.len() && (#[trigger] v[i]).tenant_id@ == name
}

/// No tenant makes two offers.
pub open spec fn offers_distinct(os: Seq<OfferView>) -> bool {
    forall|i: int, j: int|
        0 <= i < j < os.len() ==> (#[trigger] os[i]).tenant_id != (#[trigger] os[j]).tenant_id
}

/// No tenant has two allocations.
pub open spec fn names_distinct(v: Seq<AllocationView>) -> bool {
    forall|i: int, j: int|
        0 <= i < j < v.len() ==> (#[trigger] v[i]).tenant_id != (#[trigger] v[j]).tenant_id
}

/// Where a candidate with a finish time goes: behind those that finish no
/// later.
fn turn_of(v: &Vec<Candidate>, finish: u64) -> (r: usize)
    requires
        in_turn(v@),
    ensures
        r <= v@.len(),
        forall|i: int|
            0 <= i < r ==> fraction::rank((#[trigger] v@[i]).finish) <= fraction::rank(finish),
        forall|i: int|
            r <= i < v@.len() ==> fraction::rank((#[trigger] v@[i]).finish) > fraction::rank(
                finish,
            ),
{
    let place: i64 = fraction::rank_of(finish);
    let mut i: usize = 0;
    while i < v.len() && fraction::rank_of(v[i].finish) <= place
        invariant
            0 <= i <= v@.len(),
            place == fraction::rank(finish),
            forall|k: int|
                0 <= k < i ==> fraction::rank((#[trigger] v@[k]).finish) <= fraction::rank(finish),
        decreases v@.len() - i,
    {
        i = i + 1;
    }
    assert forall|k: int| i <= k < v@.len() implies fraction::rank((#[trigger] v@[k]).finish)
        > fraction::rank(finish) by {
        assert(fraction::rank(v@[i as int].finish) <= fraction::rank(v@[k].finish));
    }
    i
}

/// The weights add up to something where an eligible tenant has a weight.
proof fn lemma_has_weight(m: Map<Seq<char>, Standing>, names: Seq<Seq<char>>)
    requires
        forall|k: Seq<char>| #[trigger] m.contains_key(k) <==> names.contains(k),
    ensures
        has_weight(m) <==> weight_sum(m, names) > 0,
{
    lemma_weight_found(m, names);
    if has_weight(m) {
        let name = choose|name: Seq<char>| #[trigger]
            m.contains_key(name) && eligible(m[name]) && m[name].policy.weight > 0;
        assert(names.contains(name));
        let i = choose|i: int| 0 <= i < names.len() && names[i] == name;
        assert(eligible(m[names[i]]));
    }
    if weight_sum(m, names) > 0 {
        let i = choose|i: int|
            0 <= i < names.len() && eligible(m[#[trigger] names[i]]) && m[names[i]].policy.weight
                > 0;
        assert(names.contains(names[i]));
        assert(m.contains_key(names[i]));
    }
}

/// The weights of names add up to something where one of them is eligible and
/// has a weight.
proof fn lemma_weight_found(m: Map<Seq<char>, Standing>, names: Seq<Seq<char>>)
    ensures
        weight_sum(m, names) > 0 <==> exists|i: int|
            0 <= i < names.len() && eligible(m[#[trigger] names[i]]) && m[names[i]].policy.weight
                > 0,
    decreases names.len(),
{
    if names.len() > 0 {
        let rest = names.drop_last();
        lemma_weight_found(m, rest);
        if weight_sum(m, rest) > 0 {
            let i = choose|i: int|
                0 <= i < rest.len() && eligible(m[#[trigger] rest[i]]) && m[rest[i]].policy.weight
                    > 0;
            assert(names[i] == rest[i]);
        }
        if exists|i: int|
            0 <= i < names.len() && eligible(m[#[trigger] names[i]]) && m[names[i]].policy.weight
                > 0 {
            let i = choose|i: int|
                0 <= i < names.len() && eligible(m[#[trigger] names[i]])
                    && m[names[i]].policy.weight > 0;
            if i < rest.len() {
                assert(rest[i] == names[i]);
            }
        }
        assert(names[names.len() - 1] == names.last());
    }
}

/// Candidates that are all the eligible tenants, each once and in turn, are those
/// who take part in a round.
proof fn lemma_turn_order(m: Map<Seq<char>, Standing>, total: nat, v: Seq<Candidate>)
    requires
        total > 0 && has_weight(m),
        in_turn(v),
        forall|i: int|
            0 <= i < v.len() ==> m.contains_key((#[trigger] v[i]).tenant_id@) && eligible(
                m[v[i].tenant_id@],
            ) && is_candidate(v[i], v[i].tenant_id@, m[v[i].tenant_id@]),
        forall|i: int, j: int|
            0 <= i < j < v.len() ==> (#[trigger] v[i]).tenant_id@ != (#[trigger] v[j]).tenant_id@,
        forall|name: Seq<char>| #[trigger]
            m.contains_key(name) && eligible(m[name]) ==> listed(v, name),
    ensures
        turn_order(m, total, candidate_names(v)),
{
    let names = candidate_names(v);
    assert forall|name: Seq<char>| #[trigger] names.contains(name) <==> takes_part(
        m,
        total,
        name,
    ) by {
        if names.contains(name) {
            let i = choose|i: int| 0 <= i < names.len() && names[i] == name;
            assert(v[i].tenant_id@ == name);
        }
        if takes_part(m, total, name) {
            assert(listed(v, name));
            let i = choose|i: int| 0 <= i < v.len() && (#[trigger] v[i]).tenant_id@ == name;
            assert(names[i] == name);
        }
    }
    assert forall|i: int, j: int| 0 <= i < names.len() && 0 <= j < names.len() && i != j implies (
    #[trigger] names[i]) != (#[trigger] names[j]) by {
        if i < j {
            assert(v[i].tenant_id@ != v[j].tenant_id@);
        } else {
            assert(v[j].tenant_id@ != v[i].tenant_id@);
        }
    }
    assert forall|i: int, j: int| 0 <= i <= j < names.len() implies fraction::rank(
        m[#[trigger] names[i]].finish,
    ) <= fraction::rank(m[#[trigger] names[j]].finish) by {
        assert(fraction::rank(v[i].finish) <= fraction::rank(v[j].finish));
    }
}

/// Eligible tenants, each once, by their finish times.
spec fn fair_so_far(m: Map<Seq<char>, Standing>, names: Seq<Seq<char>>) -> bool {
    &&& names.no_duplicates()
    &&& forall|i: int|
        0 <= i < names.len() ==> m.contains_key(#[trigger] names[i]) && eligible(m[names[i]])
    &&& forall|i: int, j: int|
        0 <= i <= j < names.len() ==> fraction::rank(m[#[trigger] names[i]].finish)
            <= fraction::rank(m[#[trigger] names[j]].finish)
}

/// One more eligible tenant that is new and finishes no earlier.
proof fn lemma_fair_step(m: Map<Seq<char>, Standing>, names: Seq<Seq<char>>, i: int)
    requires
        0 <= i < names.len(),
        fair_so_far(m, names.take(i)),
        m.contains_key(names[i]) && eligible(m[names[i]]),
        forall|j: int| 0 <= j < i ==> #[trigger] names[j] != names[i],
        i > 0 ==> fraction::rank(m[names[i - 1]].finish) <= fraction::rank(m[names[i]].finish),
    ensures
        fair_so_far(m, names.take(i + 1)),
{
    let before = names.take(i);
    let after = names.take(i + 1);
    assert forall|j: int| 0 <= j < after.len() implies m.contains_key(#[trigger] after[j])
        && eligible(m[after[j]]) by {
        if j < i {
            assert(before[j] == after[j]);
        }
    }
    assert forall|j: int, k: int| 0 <= j < after.len() && 0 <= k < after.len() && j != k implies (
    #[trigger] after[j]) != (#[trigger] after[k]) by {
        if j < i && k < i {
            assert(before[j] == after[j] && before[k] == after[k]);
        } else if j < i {
            assert(names[j] != names[i]);
        } else {
            assert(names[k] != names[i]);
        }
    }
    assert forall|j: int, k: int| 0 <= j <= k < after.len() implies fraction::rank(
        m[#[trigger] after[j]].finish,
    ) <= fraction::rank(m[#[trigger] after[k]].finish) by {
        if k < i {
            assert(before[j] == after[j] && before[k] == after[k]);
        } else if j < i {
            assert(before[j] == after[j]);
            assert(before[i - 1] == names[i - 1]);
        }
    }
}

/// A longer list contains what a shorter one contains.
proof fn lemma_push_contains(s: Seq<Seq<char>>, x: Seq<char>, y: Seq<char>)
    requires
        s.contains(y),
    ensures
        s.push(x).contains(y),
{
    let k = choose|k: int| 0 <= k < s.len() && s[k] == y;
    assert(s.push(x)[k] == y);
}

/// Weights only add up.
proof fn lemma_weight_monotonic(m: Map<Seq<char>, Standing>, names: Seq<Seq<char>>, i: int)
    requires
        0 <= i <= names.len(),
    ensures
        weight_sum(m, names.take(i)) <= weight_sum(m, names),
    decreases names.len() - i,
{
    if i < names.len() {
        assert(names.take(i + 1).drop_last() =~= names.take(i));
        lemma_weight_monotonic(m, names, i + 1);
    } else {
        assert(names.take(i) =~= names);
    }
}

/// No more is used up than there is.
pub proof fn lemma_used_bound(total: nat, os: Seq<OfferView>)
    ensures
        used(total, os) <= total,
    decreases os.len(),
{
    if os.len() > 0 {
        lemma_used_bound(total, os.drop_last());
    }
}

/// Every allocation comes from an offer; distinct offers give distinct
/// allocations.
proof fn lemma_turns_from(total: nat, os: Seq<OfferView>)
    requires
        offers_distinct(os),
    ensures
        names_distinct(turns(total, os)),
        forall|i: int|
            0 <= i < turns(total, os).len() ==> offered(
                os,
                (#[trigger] turns(total, os)[i]).tenant_id,
            ),
    decreases os.len(),
{
    if os.len() > 0 {
        let rest = os.drop_last();
        assert(offers_distinct(rest)) by {
            assert forall|i: int, j: int| 0 <= i < j < rest.len() implies (
            #[trigger] rest[i]).tenant_id != (#[trigger] rest[j]).tenant_id by {
                assert(rest[i] == os[i] && rest[j] == os[j]);
            }
        }
        lemma_turns_from(total, rest);
        let before = turns(total, rest);
        let now = turns(total, os);
        assert forall|i: int| 0 <= i < now.len() implies offered(
            os,
            (#[trigger] now[i]).tenant_id,
        ) by {
            if i < before.len() {
                assert(now[i] == before[i]);
                let k = choose|k: int|
                    0 <= k < rest.len() && (#[trigger] rest[k]).tenant_id == now[i].tenant_id;
                assert(os[k] == rest[k]);
            } else {
                assert(os[os.len() - 1].tenant_id == now[i].tenant_id);
            }
        }
        assert forall|i: int, j: int| 0 <= i < j < now.len() implies (#[trigger] now[i]).tenant_id
            != (#[trigger] now[j]).tenant_id by {
            if j < before.len() {
                assert(now[i] == before[i] && now[j] == before[j]);
            } else {
                assert(now[i] == before[i]);
                let k = choose|k: int|
                    0 <= k < rest.len() && (#[trigger] rest[k]).tenant_id == before[i].tenant_id;
                assert(os[k] == rest[k]);
                assert(os[os.len() - 1] == os.last());
            }
        }
    }
}

/// The tenant makes an offer.
pub open spec fn offered(os: Seq<OfferView>, name: Seq<char>) -> bool {
    exists|k: int| 0 <= k < os.len() && (#[trigger] os[k]).tenant_id == name
}

/// No tenant gets two allocations in a round.
proof fn lemma_turns_distinct(total: nat, os: Seq<OfferView>)
    requires
        offers_distinct(os),
    ensures
        names_distinct(allotted(total, os)),
{
    lemma_turns_from(total, os);
    let ts = turns(total, os);
    let all = allotted(total, os);
    assert forall|i: int, j: int| 0 <= i < j < all.len() implies (#[trigger] all[i]).tenant_id
        != (#[trigger] all[j]).tenant_id by {
        assert(all[i].tenant_id == ts[i].tenant_id && all[j].tenant_id == ts[j].tenant_id);
    }
}

/// The slots of the turns, together.
pub open spec fn slot_sum(v: Seq<AllocationView>) -> nat
    decreases v.len(),
{
    if v.len() == 0 {
        0
    } else {
        slot_sum(v.drop_last()) + v.last().slots + v.last().extra
    }
}

/// The turns use up what is used up.
proof fn lemma_turns_sum(total: nat, os: Seq<OfferView>)
    ensures
        slot_sum(turns(total, os)) == used(total, os),
    decreases os.len(),
{
    if os.len() > 0 {
        lemma_turns_sum(total, os.drop_last());
        let before = turns(total, os.drop_last());
        let now = turns(total, os);
        if now != before {
            assert(now.drop_last() =~= before);
        }
    }
}

/// Changing one allocation changes the sum by as much.
proof fn lemma_sum_update(v: Seq<AllocationView>, i: int, a: AllocationView)
    requires
        0 <= i < v.len(),
    ensures
        slot_sum(v.update(i, a)) == slot_sum(v) - v[i].slots - v[i].extra + a.slots + a.extra,
    decreases v.len(),
{
    let w = v.update(i, a);
    if i == v.len() - 1 {
        assert(w.drop_last() =~= v.drop_last());
    } else {
        assert(w.drop_last() =~= v.drop_last().update(i, a));
        lemma_sum_update(v.drop_last(), i, a);
    }
}

/// A single allocation is no more than all together.
proof fn lemma_part_of_sum(v: Seq<AllocationView>, i: int)
    requires
        0 <= i < v.len(),
    ensures
        v[i].slots + v[i].extra <= slot_sum(v),
    decreases v.len(),
{
    if i < v.len() - 1 {
        lemma_part_of_sum(v.drop_last(), i);
    }
}

/// No turn has extra slots.
proof fn lemma_turns_plain(total: nat, os: Seq<OfferView>)
    ensures
        forall|i: int| 0 <= i < turns(total, os).len() ==> (#[trigger] turns(total, os)[i]).extra == 0,
    decreases os.len(),
{
    if os.len() > 0 {
        lemma_turns_plain(total, os.drop_last());
        let before = turns(total, os.drop_last());
        assert forall|i: int| 0 <= i < turns(total, os).len() implies (
        #[trigger] turns(total, os)[i]).extra == 0 by {
            if i < before.len() {
                assert(turns(total, os)[i] == before[i]);
            }
        }
    }
}

/// A round hands out every slot or none.
pub proof fn law_all_slots_or_none(total: nat, os: Seq<OfferView>)
    ensures
        allotted(total, os).len() > 0 ==> slot_sum(allotted(total, os)) == total,
{
    lemma_turns_sum(total, os);
    lemma_used_bound(total, os);
    lemma_turns_plain(total, os);
    let ts = turns(total, os);
    if ts.len() > 0 {
        lemma_sum_update(
            ts,
            0,
            AllocationView { extra: (total - used(total, os)) as nat, ..ts[0] },
        );
    }
}

/// No tenant gets more slots than there are.
proof fn lemma_slots_bounded(total: nat, os: Seq<OfferView>)
    ensures
        forall|i: int|
            0 <= i < allotted(total, os).len() ==> (#[trigger] allotted(total, os)[i]).slots
                + allotted(total, os)[i].extra <= total,
{
    law_all_slots_or_none(total, os);
    let all = allotted(total, os);
    assert forall|i: int| 0 <= i < all.len() implies (#[trigger] all[i]).slots + all[i].extra
        <= total by {
        lemma_part_of_sum(all, i);
    }
}

/// Slots for others leave a tenant's standing as it is.
proof fn lemma_untouched_standing(
    m: Map<Seq<char>, Standing>,
    allocs: Seq<AllocationView>,
    name: Seq<char>,
)
    ensures
        after_alloc(m, allocs).dom() == m.dom(),
        (forall|i: int| 0 <= i < allocs.len() ==> (#[trigger] allocs[i]).tenant_id != name)
            ==> after_alloc(m, allocs)[name] == m[name],
    decreases allocs.len(),
{
    if allocs.len() > 0 {
        let rest = allocs.drop_last();
        lemma_untouched_standing(m, rest, name);
        assert(after_alloc(m, allocs).dom() =~= m.dom());
        if forall|i: int| 0 <= i < allocs.len() ==> (#[trigger] allocs[i]).tenant_id != name {
            assert forall|i: int| 0 <= i < rest.len() implies (#[trigger] rest[i]).tenant_id
                != name by {
                assert(rest[i] == allocs[i]);
            }
            assert(allocs[allocs.len() - 1].tenant_id != name);
        }
    }
}

/// A tenant's slots, without those that nobody else took, are within its share
/// and its tokens.
pub proof fn law_share_and_tokens_respected(total: nat, os: Seq<OfferView>, i: int)
    requires
        0 <= i < allotted(total, os).len(),
    ensures
        exists|k: int|
            0 <= k < os.len() && (#[trigger] os[k]).tenant_id == allotted(total, os)[i].tenant_id
                && allotted(total, os)[i].slots <= os[k].raw_slots && allotted(total, os)[i].slots
                <= os[k].token_cap && allotted(total, os)[i].slots > 0,
{
    lemma_turn_offer(total, os, i);
}

/// The offer that a turn comes from.
proof fn lemma_turn_offer(total: nat, os: Seq<OfferView>, i: int)
    requires
        0 <= i < turns(total, os).len(),
    ensures
        exists|k: int|
            0 <= k < os.len() && (#[trigger] os[k]).tenant_id == turns(total, os)[i].tenant_id
                && turns(total, os)[i].slots <= os[k].raw_slots && turns(total, os)[i].slots
                <= os[k].token_cap && turns(total, os)[i].slots > 0,
    decreases os.len(),
{
    let rest = os.drop_last();
    let before = turns(total, rest);
    if i < before.len() {
        lemma_turn_offer(total, rest, i);
        let k = choose|k: int|
            0 <= k < rest.len() && (#[trigger] rest[k]).tenant_id == before[i].tenant_id
                && before[i].slots <= rest[k].raw_slots && before[i].slots <= rest[k].token_cap
                && before[i].slots > 0;
        assert(os[k] == rest[k]);
        assert(turns(total, os)[i] == before[i]);
    } else {
        assert(os[os.len() - 1] == os.last());
    }
}

/// Slots go only to tenants who take part in the round: none is paused, none has
/// reached its bound.
pub proof fn law_slots_to_eligible(
    m: Map<Seq<char>, Standing>,
    total: nat,
    os: Seq<OfferView>,
    i: int,
)
    requires
        turn_order(m, total, offer_names(os)),
        0 <= i < allotted(total, os).len(),
    ensures
        takes_part(m, total, allotted(total, os)[i].tenant_id),
{
    lemma_turn_offer(total, os, i);
    let k = choose|k: int|
        0 <= k < os.len() && (#[trigger] os[k]).tenant_id == turns(total, os)[i].tenant_id
            && turns(total, os)[i].slots <= os[k].raw_slots && turns(total, os)[i].slots
            <= os[k].token_cap && turns(total, os)[i].slots > 0;
    assert(offer_names(os)[k] == os[k].tenant_id);
    assert(offer_names(os).contains(os[k].tenant_id));
}

/// Slots are handed out in the order of the finish times.
pub proof fn law_slots_in_turn(
    m: Map<Seq<char>, Standing>,
    total: nat,
    os: Seq<OfferView>,
    i: int,
    j: int,
)
    requires
        turn_order(m, total, offer_names(os)),
        0 <= i <= j < allotted(total, os).len(),
    ensures
        fraction::rank(m[allotted(total, os)[i].tenant_id].finish) <= fraction::rank(
            m[allotted(total, os)[j].tenant_id].finish,
        ),
{
    assert forall|a: int, b: int| 0 <= a <= b < os.len() implies fraction::rank(
        m[(#[trigger] os[a]).tenant_id].finish,
    ) <= fraction::rank(m[(#[trigger] os[b]).tenant_id].finish) by {
        assert(fraction::rank(m[offer_names(os)[a]].finish) <= fraction::rank(
            m[offer_names(os)[b]].finish,
        ));
    }
    lemma_turns_ascend(m, total, os);
    assert(allotted(total, os)[i].tenant_id == turns(total, os)[i].tenant_id);
    assert(allotted(total, os)[j].tenant_id == turns(total, os)[j].tenant_id);
}

/// Turns ascend where the offers do.
proof fn lemma_turns_ascend(m: Map<Seq<char>, Standing>, total: nat, os: Seq<OfferView>)
    requires
        forall|a: int, b: int|
            0 <= a <= b < os.len() ==> fraction::rank(m[(#[trigger] os[a]).tenant_id].finish)
                <= fraction::rank(m[(#[trigger] os[b]).tenant_id].finish),
    ensures
        forall|a: int, b: int|
            0 <= a <= b < turns(total, os).len() ==> fraction::rank(
                m[(#[trigger] turns(total, os)[a]).tenant_id].finish,
            ) <= fraction::rank(m[(#[trigger] turns(total, os)[b]).tenant_id].finish),
    decreases os.len(),
{
    if os.len() > 0 {
        let rest = os.drop_last();
        let before = turns(total, rest);
        let now = turns(total, os);
        assert forall|a: int, b: int| 0 <= a <= b < rest.len() implies fraction::rank(
            m[(#[trigger] rest[a]).tenant_id].finish,
        ) <= fraction::rank(m[(#[trigger] rest[b]).tenant_id].finish) by {
            assert(rest[a] == os[a] && rest[b] == os[b]);
        }
        lemma_turns_ascend(m, total, rest);
        assert forall|a: int, b: int| 0 <= a <= b < now.len() implies fraction::rank(
            m[(#[trigger] now[a]).tenant_id].finish,
        ) <= fraction::rank(m[(#[trigger] now[b]).tenant_id].finish) by {
            if b < before.len() {
                assert(now[a] == before[a] && now[b] == before[b]);
            } else if a < before.len() {
                assert(now[a] == before[a]);
                lemma_turn_offer(total, rest, a);
                let k = choose|k: int|
                    0 <= k < rest.len() && (#[trigger] rest[k]).tenant_id == before[a].tenant_id
                        && before[a].slots <= rest[k].raw_slots && before[a].slots
                        <= rest[k].token_cap && before[a].slots > 0;
                assert(os[k] == rest[k]);
                assert(os[os.len() - 1] == os.last());
            }
        }
    }
}

/// A refill leaves who takes part in a round, and in which order.
pub proof fn law_refill_keeps_turns(
    m: Map<Seq<char>, Standing>,
    total: nat,
    names: Seq<Seq<char>>,
    name: Seq<char>,
    tokens: u64,
    last_refill: u64,
)
    requires
        turn_order(m, total, names),
        m.contains_key(name),
    ensures
        turn_order(m.insert(name, Standing { tokens, last_refill, ..m[name] }), total, names),
{
    let after = m.insert(name, Standing { tokens, last_refill, ..m[name] });
    assert forall|k: Seq<char>| #[trigger] after.contains_key(k) <==> m.contains_key(k) by {}
    if has_weight(m) {
        let k = choose|k: Seq<char>| #[trigger]
            m.contains_key(k) && eligible(m[k]) && m[k].policy.weight > 0;
        assert(after.contains_key(k) && eligible(after[k]));
    }
    if has_weight(after) {
        let k = choose|k: Seq<char>| #[trigger]
            after.contains_key(k) && eligible(after[k]) && after[k].policy.weight > 0;
        assert(m.contains_key(k) && eligible(m[k]));
    }
    assert forall|k: Seq<char>| #[trigger] names.contains(k) <==> takes_part(after, total, k) by {
        assert(names.contains(k) <==> takes_part(m, total, k));
    }
}

/// Giving back what was handed out leaves a tenant as it was.
pub proof fn law_release_undoes_schedule(m: Map<Seq<char>, Standing>, name: Seq<char>, n: usize)
    requires
        m.contains_key(name) ==> m[name].inflight + n <= usize::MAX,
    ensures
        freer(busier(m, name, n as nat), name, n) == m,
{
    if m.contains_key(name) {
        assert(freer(busier(m, name, n as nat), name, n) =~= m);
    }
}

/// The slots that a tenant got, without those that nobody else took.
pub open spec fn slots_for(v: Seq<AllocationView>, name: Seq<char>) -> nat
    decreases v.len(),
{
    if v.len() == 0 {
        0
    } else {
        slots_for(v.drop_last(), name) + (if v.last().tenant_id == name {
            v.last().slots
        } else {
            0
        })
    }
}

/// The slots that the makers of offers got, together.
pub open spec fn slots_to(v: Seq<AllocationView>, os: Seq<OfferView>) -> nat
    decreases os.len(),
{
    if os.len() == 0 {
        0
    } else {
        slots_to(v, os.drop_last()) + slots_for(v, os.last().tenant_id)
    }
}

/// Who has no allocation got nothing.
proof fn lemma_slots_for_none(v: Seq<AllocationView>, name: Seq<char>)
    requires
        forall|i: int| 0 <= i < v.len() ==> (#[trigger] v[i]).tenant_id != name,
    ensures
        slots_for(v, name) == 0,
    decreases v.len(),
{
    if v.len() > 0 {
        let rest = v.drop_last();
        assert forall|i: int| 0 <= i < rest.len() implies (#[trigger] rest[i]).tenant_id != name by {
            assert(rest[i] == v[i]);
        }
        lemma_slots_for_none(rest, name);
        assert(v[v.len() - 1].tenant_id != name);
    }
}

/// Slots that nobody else took do not count as a tenant's own.
proof fn lemma_slots_for_extra(v: Seq<AllocationView>, i: int, extra: nat, name: Seq<char>)
    requires
        0 <= i < v.len(),
    ensures
        slots_for(v.update(i, AllocationView { extra, ..v[i] }), name) == slots_for(v, name),
    decreases v.len(),
{
    let w = v.update(i, AllocationView { extra, ..v[i] });
    if i == v.len() - 1 {
        assert(w.drop_last() =~= v.drop_last());
    } else {
        assert(w.drop_last() =~= v.drop_last().update(
            i,
            AllocationView { extra, ..v.drop_last()[i] },
        ));
        lemma_slots_for_extra(v.drop_last(), i, extra, name);
    }
}

/// What an offer gets in its turn.
proof fn lemma_turn_share(total: nat, os: Seq<OfferView>, k: int)
    requires
        offers_distinct(os),
        0 <= k < os.len(),
    ensures
        slots_for(turns(total, os), os[k].tenant_id) == last_share(total, os.take(k + 1)),
    decreases os.len(),
{
    let rest = os.drop_last();
    assert(offers_distinct(rest)) by {
        assert forall|i: int, j: int| 0 <= i < j < rest.len() implies (#[trigger] rest[i]).tenant_id
            != (#[trigger] rest[j]).tenant_id by {
            assert(rest[i] == os[i] && rest[j] == os[j]);
        }
    }
    let before = turns(total, rest);
    let now = turns(total, os);
    let name = os[k].tenant_id;
    if now.len() > before.len() {
        assert(now.drop_last() =~= before);
    }
    assert(os[os.len() - 1] == os.last());
    if k < rest.len() {
        lemma_turn_share(total, rest, k);
        assert(rest[k] == os[k]);
        assert(rest.take(k + 1) =~= os.take(k + 1));
        assert(os[k].tenant_id != os[os.len() - 1].tenant_id);
    } else {
        lemma_turns_from(total, rest);
        assert forall|i: int| 0 <= i < before.len() implies (#[trigger] before[i]).tenant_id
            != name by {
            if before[i].tenant_id == name {
                let j = choose|j: int|
                    0 <= j < rest.len() && (#[trigger] rest[j]).tenant_id == before[i].tenant_id;
                assert(os[j] == rest[j]);
                assert(os[j].tenant_id != os[k].tenant_id);
            }
        }
        lemma_slots_for_none(before, name);
        assert(os.take(k + 1) =~= os);
    }
}

/// What the first offers get in their turns is what they use up.
proof fn lemma_turns_used(total: nat, os: Seq<OfferView>, k: int)
    requires
        offers_distinct(os),
        0 <= k <= os.len(),
    ensures
        slots_to(turns(total, os), os.take(k)) == used(total, os.take(k)),
    decreases k,
{
    if k > 0 {
        lemma_turns_used(total, os, k - 1);
        lemma_turn_share(total, os, k - 1);
        assert(os.take(k).drop_last() =~= os.take(k - 1));
        assert(os.take(k).last() == os[k - 1]);
        assert(os.take(k - 1 + 1) =~= os.take(k));
    }
}

/// The slots of an allotment are those of the turns.
proof fn lemma_allotted_slots(total: nat, os: Seq<OfferView>, part: Seq<OfferView>)
    ensures
        forall|name: Seq<char>| #[trigger]
            slots_for(allotted(total, os), name) == slots_for(turns(total, os), name),
        slots_to(allotted(total, os), part) == slots_to(turns(total, os), part),
    decreases part.len(),
{
    let ts = turns(total, os);
    assert forall|name: Seq<char>| #[trigger]
        slots_for(allotted(total, os), name) == slots_for(ts, name) by {
        if ts.len() > 0 {
            lemma_slots_for_extra(ts, 0, (total - used(total, os)) as nat, name);
        }
    }
    if part.len() > 0 {
        lemma_allotted_slots(total, os, part.drop_last());
    }
}

/// Every offer is served: it gets its share as far as its tokens go, and less only
/// where it takes all that those before it left. So where the shares are within the
/// slots of the round, each gets the smaller of its share and its tokens.
pub proof fn law_offer_served_in_full(total: nat, os: Seq<OfferView>, k: int)
    requires
        0 <= k < os.len(),
        forall|i: int, j: int|
            0 <= i < j < os.len() ==> (#[trigger] os[i]).tenant_id != (#[trigger] os[j]).tenant_id,
    ensures
        ({
            let v = allotted(total, os);
            let got = slots_for(v, os[k].tenant_id);
            &&& got <= os[k].raw_slots
            &&& got <= os[k].token_cap
            &&& got < os[k].raw_slots && got < os[k].token_cap ==> slots_to(v, os.take(k)) + got
                == total
            &&& slots_to(v, os.take(k)) + got <= total
        }),
{
    assert(offers_distinct(os));
    lemma_turn_share(total, os, k);
    lemma_turns_used(total, os, k);
    lemma_used_bound(total, os.take(k));
    lemma_allotted_slots(total, os, os.take(k));
    assert(os.take(k + 1).drop_last() =~= os.take(k));
    assert(os.take(k + 1).last() == os[k]);
}

/// Shares that fit are given as they are: where no more is asked for than there is,
/// each offer gets the smaller of its share and its tokens.
pub proof fn law_shares_that_fit_are_given(total: nat, os: Seq<OfferView>, k: int)
    requires
        0 <= k < os.len(),
        forall|i: int, j: int|
            0 <= i < j < os.len() ==> (#[trigger] os[i]).tenant_id != (#[trigger] os[j]).tenant_id,
        raw_sum(os) <= total,
    ensures
        ({
            let got = slots_for(allotted(total, os), os[k].tenant_id);
            got <= os[k].raw_slots && got <= os[k].token_cap && (got == os[k].raw_slots || got
                == os[k].token_cap)
        }),
{
    law_offer_served_in_full(total, os, k);
    assert(offers_distinct(os));
    lemma_used_within(total, os, k);
    lemma_turns_used(total, os, k);
    lemma_allotted_slots(total, os, os.take(k));
    lemma_raw_part(os, k);
}

/// The shares that are asked for, together.
pub open spec fn raw_sum(os: Seq<OfferView>) -> nat
    decreases os.len(),
{
    if os.len() == 0 {
        0
    } else {
        raw_sum(os.drop_last()) + os.last().raw_slots
    }
}

/// No more is used up than was asked for.
proof fn lemma_used_within(total: nat, os: Seq<OfferView>, k: int)
    requires
        0 <= k <= os.len(),
    ensures
        used(total, os.take(k)) <= raw_sum(os.take(k)),
    decreases k,
{
    if k > 0 {
        lemma_used_within(total, os, k - 1);
        assert(os.take(k).drop_last() =~= os.take(k - 1));
    }
}

/// The first offers and the next ask for no more than all.
proof fn lemma_raw_part(os: Seq<OfferView>, k: int)
    requires
        0 <= k < os.len(),
    ensures
        raw_sum(os.take(k)) + os[k].raw_slots <= raw_sum(os),
    decreases os.len() - k,
{
    assert(os.take(k + 1).drop_last() =~= os.take(k));
    assert(os.take(k + 1).last() == os[k]);
    if k + 1 < os.len() {
        lemma_raw_part(os, k + 1);
    } else {
        assert(os.take(k + 1) =~= os);
    }
}

/// What nobody took goes to the first who got any, and to nobody else: it is what
/// is left of the slots of the round.
pub proof fn law_leftover_to_the_first(total: nat, os: Seq<OfferView>)
    requires
        forall|i: int, j: int|
            0 <= i < j < os.len() ==> (#[trigger] os[i]).tenant_id != (#[trigger] os[j]).tenant_id,
    ensures
        ({
            let v = allotted(total, os);
            &&& v.len() > 0 ==> v[0].extra + slots_to(v, os) == total
            &&& forall|i: int| 0 < i < v.len() ==> (#[trigger] v[i]).extra == 0
        }),
{
    assert(offers_distinct(os));
    let v = allotted(total, os);
    let ts = turns(total, os);
    lemma_turns_plain(total, os);
    lemma_turns_used(total, os, os.len() as int);
    assert(os.take(os.len() as int) =~= os);
    lemma_allotted_slots(total, os, os);
    lemma_used_bound(total, os);
    assert forall|i: int| 0 < i < v.len() implies (#[trigger] v[i]).extra == 0 by {
        assert(v[i] == ts[i]);
    }
}

/// Nobody is on the list without slots, everybody is on it once, and all are on it whom
/// the round gave any.
pub proof fn law_listed_with_slots(total: nat, os: Seq<OfferView>)
    requires
        forall|i: int, j: int|
            0 <= i < j < os.len() ==> (#[trigger] os[i]).tenant_id != (#[trigger] os[j]).tenant_id,
    ensures
        ({
            let v = allotted(total, os);
            &&& forall|i: int|
                0 <= i < v.len() ==> (#[trigger] v[i]).slots > 0 && v[i].slots == slots_for(
                    v,
                    v[i].tenant_id,
                )
            &&& forall|k: int|
                0 <= k < os.len() && slots_for(v, (#[trigger] os[k]).tenant_id) > 0 ==> exists|i: int|
                    0 <= i < v.len() && (#[trigger] v[i]).tenant_id == os[k].tenant_id
        }),
{
    assert(offers_distinct(os));
    let v = allotted(total, os);
    let ts = turns(total, os);
    lemma_turns_distinct(total, os);
    assert forall|i: int| 0 <= i < v.len() implies (#[trigger] v[i]).slots > 0 && v[i].slots
        == slots_for(v, v[i].tenant_id) by {
        lemma_turn_offer(total, os, i);
        assert(v[i].slots == ts[i].slots);
        lemma_slots_for_one(v, i);
    }
    assert forall|k: int| 0 <= k < os.len() && slots_for(v, (#[trigger] os[k]).tenant_id)
        > 0 implies exists|i: int| 0 <= i < v.len() && (#[trigger] v[i]).tenant_id
        == os[k].tenant_id by {
        if forall|i: int| 0 <= i < v.len() ==> (#[trigger] v[i]).tenant_id != os[k].tenant_id {
            lemma_slots_for_none(v, os[k].tenant_id);
        }
    }
}

/// Those on the list stand in the order of the offers.
pub proof fn law_listed_in_order(total: nat, os: Seq<OfferView>, i: int, j: int)
    requires
        0 <= i < j < allotted(total, os).len(),
    ensures
        exists|a: int, b: int|
            #![trigger os[a], os[b]]
            0 <= a < b < os.len() && os[a].tenant_id == allotted(total, os)[i].tenant_id
                && os[b].tenant_id == allotted(total, os)[j].tenant_id,
{
    let v = allotted(total, os);
    let ts = turns(total, os);
    let (a, b) = lemma_turns_follow(total, os, i, j);
    assert(v[i].tenant_id == ts[i].tenant_id && v[j].tenant_id == ts[j].tenant_id);
    assert(os[a].tenant_id == v[i].tenant_id && os[b].tenant_id == v[j].tenant_id);
}

/// A tenant with one allocation got the slots of that.
proof fn lemma_slots_for_one(v: Seq<AllocationView>, i: int)
    requires
        names_distinct(v),
        0 <= i < v.len(),
    ensures
        slots_for(v, v[i].tenant_id) == v[i].slots,
    decreases v.len(),
{
    let rest = v.drop_last();
    let name = v[i].tenant_id;
    if i < rest.len() {
        assert(names_distinct(rest)) by {
            assert forall|a: int, b: int| 0 <= a < b < rest.len() implies (
            #[trigger] rest[a]).tenant_id != (#[trigger] rest[b]).tenant_id by {
                assert(v[a].tenant_id != v[b].tenant_id);
            }
        }
        lemma_slots_for_one(rest, i);
        assert(v[i].tenant_id != v[v.len() - 1].tenant_id);
    } else {
        assert forall|a: int| 0 <= a < rest.len() implies (#[trigger] rest[a]).tenant_id != name by {
            assert(v[a].tenant_id != v[i].tenant_id);
        }
        lemma_slots_for_none(rest, name);
    }
}

/// Turns come in the order of the offers.
proof fn lemma_turns_follow(total: nat, os: Seq<OfferView>, i: int, j: int) -> (p: (int, int))
    requires
        0 <= i < j < turns(total, os).len(),
    ensures
        0 <= p.0 < p.1 < os.len(),
        os[p.0].tenant_id == turns(total, os)[i].tenant_id,
        os[p.1].tenant_id == turns(total, os)[j].tenant_id,
    decreases os.len(),
{
    let rest = os.drop_last();
    let before = turns(total, rest);
    if j < before.len() {
        let p = lemma_turns_follow(total, rest, i, j);
        assert(os[p.0] == rest[p.0] && os[p.1] == rest[p.1]);
        p
    } else {
        lemma_turn_offer(total, rest, i);
        let k = choose|k: int|
            0 <= k < rest.len() && (#[trigger] rest[k]).tenant_id == before[i].tenant_id
                && before[i].slots <= rest[k].raw_slots && before[i].slots <= rest[k].token_cap
                && before[i].slots > 0;
        assert(os[k] == rest[k]);
        (k, os.len() - 1)
    }
}

/// Handing out slots makes a tenant busier by as many as it got, and changes nothing
/// else of it; who got none stays as it is.
pub proof fn law_slots_are_in_use(m: Map<Seq<char>, Standing>, v: Seq<AllocationView>, i: int)
    requires
        forall|a: int, b: int|
            0 <= a < b < v.len() ==> (#[trigger] v[a]).tenant_id != (#[trigger] v[b]).tenant_id,
        0 <= i < v.len(),
        m.contains_key(v[i].tenant_id),
        m[v[i].tenant_id].inflight + v[i].slots + v[i].extra <= usize::MAX,
    ensures
        ({
            let old = m[v[i].tenant_id];
            let new = after_alloc(m, v)[v[i].tenant_id];
            &&& new.inflight == old.inflight + v[i].slots + v[i].extra
            &&& new.policy == old.policy
            &&& new.tokens == old.tokens && new.paused == old.paused && new.finish == old.finish
                && new.last_refill == old.last_refill && new.created_at == old.created_at
        }),
        forall|name: Seq<char>|
            #![trigger after_alloc(m, v).contains_key(name)]
            (after_alloc(m, v).contains_key(name) <==> m.contains_key(name)) && ((forall|j: int|
                0 <= j < v.len() ==> (#[trigger] v[j]).tenant_id != name) ==> after_alloc(m, v)[name]
                == m[name]),
    decreases v.len(),
{
    let rest = v.drop_last();
    let name = v[i].tenant_id;
    assert forall|n: Seq<char>|
        #![trigger after_alloc(m, v).contains_key(n)]
        (after_alloc(m, v).contains_key(n) <==> m.contains_key(n)) && ((forall|j: int|
            0 <= j < v.len() ==> (#[trigger] v[j]).tenant_id != n) ==> after_alloc(m, v)[n]
            == m[n]) by {
        lemma_untouched_standing(m, v, n);
        assert(after_alloc(m, v).dom().contains(n) == m.dom().contains(n));
    }
    assert forall|a: int, b: int| 0 <= a < b < rest.len() implies (#[trigger] rest[a]).tenant_id
        != (#[trigger] rest[b]).tenant_id by {
        assert(v[a].tenant_id != v[b].tenant_id);
    }
    if i < rest.len() {
        assert(rest[i] == v[i]);
        law_slots_are_in_use(m, rest, i);
        assert(v[i].tenant_id != v[v.len() - 1].tenant_id);
    } else {
        assert forall|a: int| 0 <= a < rest.len() implies (#[trigger] rest[a]).tenant_id != name by {
            assert(v[a].tenant_id != v[i].tenant_id);
        }
        lemma_untouched_standing(m, rest, name);
        assert(after_alloc(m, rest).dom().contains(name) == m.dom().contains(name));
    }
}

/// Every round counts by one, up to the last that a fraction can tell from the next.
pub proof fn law_rounds_count_up(t: u64)
    ensures
        t < 9_007_199_254_740_992 ==> next_round(t) == t + 1,
        t >= 9_007_199_254_740_992 ==> next_round(t) == t,
{
}

/// Who is among those of a round: every tenant that is neither paused nor has as many
/// slots in use as it may, where there is a slot and such a tenant has a weight.
pub proof fn law_who_takes_part(
    m: Map<Seq<char>, Standing>,
    total: nat,
    names: Seq<Seq<char>>,
    name: Seq<char>,
)
    requires
        turn_order(m, total, names),
    ensures
        names.contains(name) <==> {
            &&& total > 0
            &&& m.contains_key(name)
            &&& !m[name].paused
            &&& m[name].inflight < m[name].policy.max_inflight
            &&& exists|other: Seq<char>| #[trigger]
                m.contains_key(other) && !m[other].paused && m[other].inflight
                    < m[other].policy.max_inflight && m[other].policy.weight > 0
        },
        forall|i: int, j: int|
            0 <= i < j < names.len() ==> (#[trigger] names[i]) != (#[trigger] names[j])
                && !fraction::above(m[names[i]].finish, m[names[j]].finish),
{
    assert(names.contains(name) <==> takes_part(m, total, name));
    if exists|other: Seq<char>| #[trigger]
        m.contains_key(other) && !m[other].paused && m[other].inflight
            < m[other].policy.max_inflight && m[other].policy.weight > 0 {
        let other = choose|other: Seq<char>| #[trigger]
            m.contains_key(other) && !m[other].paused && m[other].inflight
                < m[other].policy.max_inflight && m[other].policy.weight > 0;
        assert(m.contains_key(other) && eligible(m[other]));
    }
    if has_weight(m) {
        let other = choose|other: Seq<char>| #[trigger]
            m.contains_key(other) && eligible(m[other]) && m[other].policy.weight > 0;
        assert(m.contains_key(other) && !m[other].paused);
    }
    assert forall|i: int, j: int| 0 <= i < j < names.len() implies (#[trigger] names[i]) != (
    #[trigger] names[j]) && !fraction::above(m[names[i]].finish, m[names[j]].finish) by {
        assert(fraction::rank(m[names[i]].finish) <= fraction::rank(m[names[j]].finish));
    }
}

/// The weight of a round is that of the tenants that are neither paused nor full: each
/// adds its own, and the others add nothing.
pub proof fn law_weight_adds_up(
    m: Map<Seq<char>, Standing>,
    names: Seq<Seq<char>>,
    name: Seq<char>,
)
    ensures
        weight_sum(m, Seq::empty()) == 0,
        !m[name].paused && m[name].inflight < m[name].policy.max_inflight ==> weight_sum(
            m,
            names.push(name),
        ) == weight_sum(m, names) + m[name].policy.weight,
        m[name].paused || m[name].inflight >= m[name].policy.max_inflight ==> weight_sum(
            m,
            names.push(name),
        ) == weight_sum(m, names),
{
    assert(names.push(name).drop_last() =~= names);
}

/// A candidate tells what its share is computed from as the tenant stands.
pub proof fn law_candidate_tells_standing(c: Candidate, name: Seq<char>, s: Standing)
    requires
        is_candidate(c, name, s),
    ensures
        c.tenant_id@ == name,
        c.weight == s.policy.weight,
        c.rate_per_sec == s.policy.rate_per_sec,
        c.burst_tokens == s.policy.burst_tokens,
        c.tokens == s.tokens,
        c.finish == s.finish,
        c.last_refill == s.last_refill,
{
}

/// Slots that are given back are free again, as many as were in use at most.
pub proof fn law_release_frees(m: Map<Seq<char>, Standing>, name: Seq<char>, n: usize)
    ensures
        !m.contains_key(name) ==> freer(m, name, n) == m,
        m.contains_key(name) ==> {
            let old = m[name];
            let new = freer(m, name, n)[name];
            &&& old.inflight >= n ==> new.inflight + n == old.inflight
            &&& old.inflight < n ==> new.inflight == 0
            &&& new.policy == old.policy
            &&& new.tokens == old.tokens && new.paused == old.paused && new.finish == old.finish
                && new.last_refill == old.last_refill && new.created_at == old.created_at
        },
        forall|other: Seq<char>|
            #![trigger m.contains_key(other)]
            other != name ==> (freer(m, name, n).contains_key(other) <==> m.contains_key(other))
                && freer(m, name, n)[other] == m[other],
{
}

/// Another policy takes the place of the old one and leaves where the tenant stands;
/// a tenant that was not known starts with a full bucket and nothing in use.
pub proof fn law_policy_change_keeps_standing(
    m: Map<Seq<char>, Standing>,
    policy: SharePolicy,
    full: u64,
    now: u64,
)
    ensures
        ({
            let after = repoliced(m, policy, full, now);
            let new = after[policy.tenant_id];
            &&& after.contains_key(policy.tenant_id)
            &&& new.policy == policy
            &&& m.contains_key(policy.tenant_id) ==> {
                let old = m[policy.tenant_id];
                new.tokens == old.tokens && new.inflight == old.inflight && new.paused
                    == old.paused && new.finish == old.finish && new.last_refill
                    == old.last_refill && new.created_at == old.created_at
            }
            &&& !m.contains_key(policy.tenant_id) ==> new.tokens == full && new.inflight == 0
                && !new.paused && new.finish == 0 && new.last_refill == now && new.created_at == now
            &&& forall|other: Seq<char>|
                #![trigger m.contains_key(other)]
                other != policy.tenant_id ==> (after.contains_key(other) <==> m.contains_key(other))
                    && after[other] == m[other]
        }),
{
}

/// What the tiers weigh and may use at a time, and how a tenant begins: with a full
/// bucket, nothing leased, not paused, and at the front of the turns.
pub proof fn law_tier_shares(id: Seq<char>, policy: SharePolicy, full: u64, now: u64)
    ensures
        ({
            let s = standard_share(id);
            s.tenant_id == id && s.weight == 10 && s.max_inflight == 500 && s.burst_tokens == 100
                && s.rate_per_sec == 100
        }),
        ({
            let p = premium_share(id);
            p.tenant_id == id && p.weight == 50 && p.max_inflight == 5000 && p.burst_tokens == 1000
                && p.rate_per_sec == 1000
        }),
        ({
            let n = newcomer(policy, full, now);
            n.policy == policy && n.tokens == full && n.inflight == 0 && !n.paused && n.finish == 0
                && n.last_refill == now && n.created_at == now
        }),
{
}

/// A refill sets a tenant's tokens and their time, and a turn its tokens and its finish
/// time; everything else about it stays, and so does everybody else. For a tenant that is
/// not known nothing changes.
pub proof fn law_tokens_noted(
    m: Map<Seq<char>, Standing>,
    name: Seq<char>,
    tokens: u64,
    time: u64,
    other: Seq<char>,
)
    requires
        other != name,
    ensures
        !m.contains_key(name) ==> with_tokens(m, name, tokens, time) == m && with_turn(
            m,
            name,
            tokens,
            time,
        ) == m,
        m.contains_key(name) ==> {
            let a = with_tokens(m, name, tokens, time)[name];
            let b = with_turn(m, name, tokens, time)[name];
            &&& a.tokens == tokens && a.last_refill == time && a.finish == m[name].finish
            &&& b.tokens == tokens && b.finish == time && b.last_refill == m[name].last_refill
            &&& a.inflight == m[name].inflight && a.paused == m[name].paused && a.policy
                == m[name].policy && a.created_at == m[name].created_at
            &&& b.inflight == m[name].inflight && b.paused == m[name].paused && b.policy
                == m[name].policy && b.created_at == m[name].created_at
        },
        with_tokens(m, name, tokens, time).dom() == m.dom(),
        with_turn(m, name, tokens, time).dom() == m.dom(),
        with_tokens(m, name, tokens, time)[other] == m[other],
        with_turn(m, name, tokens, time)[other] == m[other],
{
    assert(with_tokens(m, name, tokens, time).dom() =~= m.dom());
    assert(with_turn(m, name, tokens, time).dom() =~= m.dom());
}

} // verus!
